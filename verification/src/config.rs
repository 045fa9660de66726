//! The configuration registry: the named values the engine, the static
//! responder and the forwarder read. The configuration loader fills it
//! before serving starts; afterwards it is only read.
use vstd::prelude::*;
use vstd::string::StringSliceAdditionalSpecFns;

verus! {

/// The default listen address, `0.0.0.0`.
pub open spec fn default_addr() -> Seq<u8> {
    seq![
        ('0' as u8),
        ('.' as u8),
        ('0' as u8),
        ('.' as u8),
        ('0' as u8),
        ('.' as u8),
        ('0' as u8),
    ]
}

/// The default listen port, `9999`.
pub open spec fn default_port() -> Seq<u8> {
    seq![('9' as u8), ('9' as u8), ('9' as u8), ('9' as u8)]
}

/// The process-wide configuration values.
pub struct ConfigRegistry {
    /// The address the listener binds.
    pub listen_addr: Vec<u8>,
    /// The port the listener binds, as a decimal string.
    pub listen_port: Vec<u8>,
    /// The static responder's root directory; empty when unset.
    pub root_path: Vec<u8>,
    /// The forwarder's backend list, each entry a `host:port` string.
    pub proxy_targets: Vec<Vec<u8>>,
}

impl ConfigRegistry {
    /// The defaults: listen on `0.0.0.0:9999`, no static root, no
    /// backends.
    pub fn new() -> (c: ConfigRegistry)
        ensures
            c.listen_addr@ == default_addr(),
            c.listen_port@ == default_port(),
            c.root_path@ == Seq::<u8>::empty(),
            c.proxy_targets@.len() == 0,
    {
        let addr: Vec<u8> = vec![
            ('0' as u8),
            ('.' as u8),
            ('0' as u8),
            ('.' as u8),
            ('0' as u8),
            ('.' as u8),
            ('0' as u8),
        ];
        let port: Vec<u8> = vec![('9' as u8), ('9' as u8), ('9' as u8), ('9' as u8)];
        proof {
            assert(addr@ =~= default_addr());
            assert(port@ =~= default_port());
        }
        ConfigRegistry { listen_addr: addr, listen_port: port, root_path: Vec::new(), proxy_targets: Vec::new() }
    }

    /// Overrides the listen port.
    pub fn set_port(&mut self, port: &str)
        ensures
            final(self).listen_port@ == port.spec_bytes(),
            final(self).listen_addr == old(self).listen_addr,
            final(self).root_path == old(self).root_path,
            final(self).proxy_targets == old(self).proxy_targets,
    {
        self.listen_port = port.as_bytes_vec();
    }

    /// Sets the static responder's root directory.
    pub fn set_root_path(&mut self, root: &str)
        ensures
            final(self).root_path@ == root.spec_bytes(),
            final(self).listen_addr == old(self).listen_addr,
            final(self).listen_port == old(self).listen_port,
            final(self).proxy_targets == old(self).proxy_targets,
    {
        self.root_path = root.as_bytes_vec();
    }

    /// Appends one backend to the forwarder's list.
    pub fn push_proxy_target(&mut self, target: &str)
        ensures
            final(self).proxy_targets@.len() == old(self).proxy_targets@.len() + 1,
            final(self).proxy_targets@.last()@ == target.spec_bytes(),
            forall|i: int|
                0 <= i < old(self).proxy_targets@.len() ==> final(self).proxy_targets@[i] == old(
                    self,
                ).proxy_targets@[i],
            final(self).listen_addr == old(self).listen_addr,
            final(self).listen_port == old(self).listen_port,
            final(self).root_path == old(self).root_path,
    {
        self.proxy_targets.push(target.as_bytes_vec());
    }
}

/// The disk path the static responder serves a target from: the root with
/// the target appended, the target's leading `/` dropped.
pub fn static_file_path(root: &[u8], path: &[u8]) -> (r: Vec<u8>)
    ensures
        r@ == root@ + (if path@.len() >= 1 {
            path@.skip(1)
        } else {
            Seq::<u8>::empty()
        }),
{
    let mut out = crate::ascii::sub_vec(root, 0, root.len());
    if path.len() >= 1 {
        let mut tail = crate::ascii::sub_vec(path, 1, path.len());
        proof {
            assert(tail@ =~= path@.skip(1));
        }
        out.append(&mut tail);
    } else {
        proof {
            assert(out@ =~= root@ + Seq::<u8>::empty());
        }
    }
    out
}

} // verus!
