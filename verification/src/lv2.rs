//! In-memory model of the plugin metadata provider.
//!
//! The real provider is a native plugin database queried over a foreign
//! interface; that lookup capability is handed to the patch engine as plain
//! data: for every plugin a URI, its total port count, and its
//! symbol-to-index table.  The unverified front end fills these tables from
//! the native library; everything that reads them is verified here.
//!
//! A URI or symbol holding an embedded NUL byte is rejected at the provider
//! boundary and treated as "not found", as the native string interface
//! would reject it.

use crate::bytes::{bytes_eq, has_nul};
use vstd::prelude::*;

verus! {

/// One plugin's port metadata: total port count and the symbol table.
pub struct Plugin {
    pub num_ports: u32,
    pub ports: Vec<(Vec<u8>, u32)>,
}

/// Index of the first entry of `ports` whose symbol is `sym`.
pub open spec fn find_port(ports: Seq<(Vec<u8>, u32)>, sym: Seq<u8>) -> Option<u32>
    decreases ports.len(),
{
    if ports.len() == 0 {
        None
    } else if ports[0].0@ == sym {
        Some(ports[0].1)
    } else {
        find_port(ports.drop_first(), sym)
    }
}

impl Plugin {
    /// What a symbol lookup returns: a symbol with an embedded NUL is
    /// rejected at the boundary; otherwise the first matching entry wins.
    pub open spec fn spec_port_index(&self, sym: Seq<u8>) -> Option<u32> {
        if sym.contains(0u8) {
            None
        } else {
            find_port(self.ports@, sym)
        }
    }

    pub fn new(num_ports: u32) -> (r: Self)
        ensures
            r.num_ports == num_ports,
            r.ports@.len() == 0,
    {
        Plugin { num_ports, ports: Vec::new() }
    }

    /// Adds one symbol-to-index entry, after any already present.
    pub fn add_port(&mut self, symbol: Vec<u8>, index: u32)
        ensures
            final(self).num_ports == old(self).num_ports,
            final(self).ports@ == old(self).ports@.push((symbol, index)),
    {
        self.ports.push((symbol, index));
    }

    /// The plugin's total port count, as the provider reports it.
    pub fn num_ports(&self) -> (r: u32)
        ensures
            r == self.num_ports,
    {
        self.num_ports
    }

    /// Current index of the port with the given symbol, if any.
    pub fn port_index(&self, symbol: &[u8]) -> (r: Option<u32>)
        ensures
            r == self.spec_port_index(symbol@),
    {
        if has_nul(symbol) {
            return None;
        }
        let mut i: usize = 0;
        assert(self.ports@.skip(0) =~= self.ports@);
        while i < self.ports.len()
            invariant
                0 <= i <= self.ports@.len(),
                !symbol@.contains(0u8),
                find_port(self.ports@, symbol@) == find_port(
                    self.ports@.skip(i as int),
                    symbol@,
                ),
            decreases self.ports@.len() - i,
        {
            assert(self.ports@.skip(i as int)[0] == self.ports@[i as int]);
            if bytes_eq(self.ports[i].0.as_slice(), symbol) {
                assert(find_port(self.ports@.skip(i as int), symbol@) == Some(
                    self.ports@[i as int].1,
                ));
                return Some(self.ports[i].1);
            }
            i += 1;
            assert(self.ports@.skip(i - 1).drop_first() =~= self.ports@.skip(i as int));
        }
        assert(self.ports@.skip(i as int) =~= Seq::<(Vec<u8>, u32)>::empty());
        None
    }
}

/// The plugin database: one entry per known plugin, keyed by URI.
pub struct Plugins {
    pub entries: Vec<(Vec<u8>, Plugin)>,
}

/// First entry of `entries` whose URI is `uri`.
pub open spec fn find_plugin(entries: Seq<(Vec<u8>, Plugin)>, uri: Seq<u8>) -> Option<Plugin>
    decreases entries.len(),
{
    if entries.len() == 0 {
        None
    } else if entries[0].0@ == uri {
        Some(entries[0].1)
    } else {
        find_plugin(entries.drop_first(), uri)
    }
}

impl Plugins {
    /// What a URI lookup returns: a URI with an embedded NUL is rejected
    /// at the boundary; otherwise the first matching entry wins.
    pub open spec fn spec_get(&self, uri: Seq<u8>) -> Option<Plugin> {
        if uri.contains(0u8) {
            None
        } else {
            find_plugin(self.entries@, uri)
        }
    }

    pub fn new() -> (r: Self)
        ensures
            r.entries@.len() == 0,
    {
        Plugins { entries: Vec::new() }
    }

    /// Adds one plugin under its URI, after any already present.
    pub fn add(&mut self, uri: Vec<u8>, plugin: Plugin)
        ensures
            final(self).entries@ == old(self).entries@.push((uri, plugin)),
    {
        self.entries.push((uri, plugin));
    }

    /// The plugin registered under `uri`, if any.
    pub fn get(&self, uri: &[u8]) -> (r: Option<&Plugin>)
        ensures
            match r {
                Some(p) => self.spec_get(uri@) == Some(*p),
                None => self.spec_get(uri@) is None,
            },
    {
        if has_nul(uri) {
            return None;
        }
        let mut i: usize = 0;
        assert(self.entries@.skip(0) =~= self.entries@);
        while i < self.entries.len()
            invariant
                0 <= i <= self.entries@.len(),
                !uri@.contains(0u8),
                find_plugin(self.entries@, uri@) == find_plugin(
                    self.entries@.skip(i as int),
                    uri@,
                ),
            decreases self.entries@.len() - i,
        {
            assert(self.entries@.skip(i as int)[0] == self.entries@[i as int]);
            if bytes_eq(self.entries[i].0.as_slice(), uri) {
                assert(find_plugin(self.entries@.skip(i as int), uri@) == Some(
                    self.entries@[i as int].1,
                ));
                return Some(&self.entries[i].1);
            }
            i += 1;
            assert(self.entries@.skip(i - 1).drop_first() =~= self.entries@.skip(i as int));
        }
        assert(self.entries@.skip(i as int) =~= Seq::<(Vec<u8>, Plugin)>::empty());
        None
    }
}

} // verus!
