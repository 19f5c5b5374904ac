//! `DissectorTable`: which dissector is registered for which port.

use std::collections::BTreeMap;
use vstd::prelude::*;
use vstd::string::*;
use crate::text::text_equal;

verus! {

/// The dissectors by port. `D` is whatever stands for a dissector. Its view is the map from ports
/// to dissectors.
pub struct Registry<D> {
    dissectors: BTreeMap<u16, D>,
}

impl<D> View for Registry<D> {
    type V = Map<u16, D>;

    closed spec fn view(&self) -> Map<u16, D> {
        self.dissectors@
    }
}

impl<D> Registry<D> {
    pub fn new() -> (registry: Registry<D>)
        ensures
            registry@ == Map::<u16, D>::empty(),
    {
        Registry { dissectors: BTreeMap::new() }
    }

    /// Registers a dissector for a port, in place of one that was there before.
    pub fn add(&mut self, port: u16, dissector: D)
        ensures
            final(self)@ == old(self)@.insert(port, dissector),
    {
        self.dissectors.insert(port, dissector);
    }

    /// The dissector registered for a port.
    pub fn get(&self, port: u16) -> (dissector: Option<&D>)
        ensures
            match dissector {
                Some(dissector) => self@.contains_key(port) && *dissector == self@[port],
                None => !self@.contains_key(port),
            },
    {
        self.dissectors.get(&port)
    }

    /// Whether a dissector is registered for a port.
    pub fn has_dissector_for_port(&self, port: u16) -> (yes: bool)
        ensures
            yes == self@.contains_key(port),
    {
        self.dissectors.contains_key(&port)
    }
}

/// Dissectors on different ports coexist: registering one for a port makes it the one found there,
/// whatever was there before, and changes nothing for any other port.
pub proof fn law_ports_are_independent<D>(dissectors: Map<u16, D>, port: u16, dissector: D, other: u16)
    requires
        other != port,
    ensures
        dissectors.insert(port, dissector).contains_key(port),
        dissectors.insert(port, dissector)[port] == dissector,
        dissectors.insert(port, dissector).contains_key(other) == dissectors.contains_key(other),
        dissectors.contains_key(other) ==> dissectors.insert(port, dissector)[other]
            == dissectors[other],
{
}

/// The dissector tables that there are: the one for decrypted TLS application data by port, under
/// its present name and its old one.
pub open spec fn names_tls_table(name: Seq<char>) -> bool {
    name == "tls.port"@ || name == "ssl.port"@
}

/// What `DissectorTable.get(..)` comes to: the table for TLS ports, or an error with what is said
/// of it.
pub fn find_table(name: &str) -> (found: Result<(), String>)
    ensures
        match found {
            Ok(()) => names_tls_table(name@),
            Err(message) => {
                &&& !names_tls_table(name@)
                &&& message@ == "DissectorTable.get: unsupported table \""@ + name@
                    + "\" (tlscap only supports tls.port/ssl.port in v1)"@
            },
        },
{
    if text_equal(name, "tls.port") || text_equal(name, "ssl.port") {
        Ok(())
    } else {
        let mut message = String::new();
        message.append("DissectorTable.get: unsupported table \"");
        message.append(name);
        message.append("\" (tlscap only supports tls.port/ssl.port in v1)");
        assert(message@ =~= "DissectorTable.get: unsupported table \""@ + name@
            + "\" (tlscap only supports tls.port/ssl.port in v1)"@);
        Err(message)
    }
}

} // verus!
