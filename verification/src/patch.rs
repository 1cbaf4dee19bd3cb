//! The patch engine: resolves every extracted occurrence to its current
//! port index and renders the output text, byte-identical to the input
//! except at the recorded digit ranges.

use crate::bytes::{bytes_eq, has_nul, lemma_prefix_trans};
use crate::decimal::{dec_rep, push_decimal};
use crate::diag::{diags_view, DiagView, Diagnostic};
use crate::lv2::{Plugin, Plugins};
use crate::session::{param_views, params_of, parse_state, ByteRange, ParamView, Processor};
use crate::xml;
use crate::xml::{doc_model, node_view, tree_view, well_formed_xml, NodeView, XmlTree};
use vstd::multiset::Multiset;
use vstd::prelude::*;
use vstd::slice::slice_subrange;
use vstd::string::StrSliceExecFns;
use vstd::string::StringSliceAdditionalSpecFns;

verus! {

/// One pending edit: replace the digit text at `location` with `value`.
#[derive(Clone, Copy, Debug, PartialEq, Eq, Structural)]
pub struct Replacement {
    pub location: ByteRange,
    pub value: u32,
}

/// A resolvable port: the plugin URI and the port symbol.
pub struct PortId {
    pub uri: Vec<u8>,
    pub symbol: Vec<u8>,
}

/// Spec view of a resolver cache key.
pub type KeyView = (Seq<u8>, Seq<u8>);

impl PortId {
    pub open spec fn key(&self) -> KeyView {
        (self.uri@, self.symbol@)
    }
}

/// View of the resolver cache.
pub open spec fn cache_view(c: Seq<(PortId, u32)>) -> Seq<(KeyView, u32)> {
    c.map(|i: int, p: (PortId, u32)| (p.0.key(), p.1))
}

/// View of the per-URI fallback counters.
pub open spec fn count_view(c: Seq<(Vec<u8>, u32)>) -> Seq<(Seq<u8>, u32)> {
    c.map(|i: int, p: (Vec<u8>, u32)| (p.0@, p.1))
}

/// Cached index for `key`.  The cache never holds two entries for one
/// key, so the first match is the resolution.
pub open spec fn find_cached(cache: Seq<(KeyView, u32)>, key: KeyView) -> Option<u32>
    decreases cache.len(),
{
    if cache.len() == 0 {
        None
    } else if cache[0].0 == key {
        Some(cache[0].1)
    } else {
        find_cached(cache.drop_first(), key)
    }
}

/// Fallback counter for `uri`: the next unused fallback index.
pub open spec fn find_count(counts: Seq<(Seq<u8>, u32)>, uri: Seq<u8>) -> Option<u32>
    decreases counts.len(),
{
    if counts.len() == 0 {
        None
    } else if counts[0].0 == uri {
        Some(counts[0].1)
    } else {
        find_count(counts.drop_first(), uri)
    }
}

/// Position of `uri`'s counter, or `-1` when it has none yet.
pub open spec fn count_pos(counts: Seq<(Seq<u8>, u32)>, uri: Seq<u8>) -> int
    decreases counts.len(),
{
    if counts.len() == 0 {
        -1
    } else if counts[0].0 == uri {
        0
    } else {
        let r = count_pos(counts.drop_first(), uri);
        if r < 0 {
            -1
        } else {
            r + 1
        }
    }
}

/// Counter value after handing out a fallback index `c`.
pub open spec fn next_count(c: u32) -> u32 {
    if c == u32::MAX {
        c
    } else {
        (c + 1) as u32
    }
}

/// The resolver policy for one occurrence: a cache hit returns the
/// cached index; otherwise the provider's answer `lookup` is taken when
/// there is one; otherwise the fallback counter for the URI (started at
/// the plugin's reported port count) supplies the index.
pub open spec fn resolve_index(
    cache: Seq<(KeyView, u32)>,
    counts: Seq<(Seq<u8>, u32)>,
    lookup: Option<u32>,
    num_ports: u32,
    key: KeyView,
) -> u32 {
    match find_cached(cache, key) {
        Some(v) => v,
        None => match lookup {
            Some(i) => i,
            None => match find_count(counts, key.0) {
                Some(c) => c,
                None => num_ports,
            },
        },
    }
}

/// The cache after one resolution: the key now maps to the index.
pub open spec fn resolve_cache(
    cache: Seq<(KeyView, u32)>,
    counts: Seq<(Seq<u8>, u32)>,
    lookup: Option<u32>,
    num_ports: u32,
    key: KeyView,
) -> Seq<(KeyView, u32)> {
    if find_cached(cache, key) is Some {
        cache
    } else {
        cache.push((key, resolve_index(cache, counts, lookup, num_ports, key)))
    }
}

/// The counters after one resolution: advanced only when a fallback
/// index was handed out.
pub open spec fn resolve_counts(
    cache: Seq<(KeyView, u32)>,
    counts: Seq<(Seq<u8>, u32)>,
    lookup: Option<u32>,
    num_ports: u32,
    key: KeyView,
) -> Seq<(Seq<u8>, u32)> {
    if find_cached(cache, key) is Some || lookup is Some {
        counts
    } else {
        let next = next_count(resolve_index(cache, counts, lookup, num_ports, key));
        let p = count_pos(counts, key.0);
        if p >= 0 {
            counts.update(p, (key.0, next))
        } else {
            counts.push((key.0, next))
        }
    }
}

/// Looking a key up in a cache extended by one entry.
proof fn lemma_find_cached_push(s: Seq<(KeyView, u32)>, x: (KeyView, u32), k: KeyView)
    ensures
        find_cached(s.push(x), k) == (if find_cached(s, k) is Some {
            find_cached(s, k)
        } else if x.0 == k {
            Some(x.1)
        } else {
            None
        }),
    decreases s.len(),
{
    if s.len() == 0 {
        assert(find_cached(s, k) is None);
        assert(s.push(x)[0] == x);
        assert(s.push(x).drop_first() =~= Seq::<(KeyView, u32)>::empty());
        assert(find_cached(s.push(x).drop_first(), k) is None);
    } else {
        assert(s.push(x)[0] == s[0]);
        assert(s.push(x).drop_first() =~= s.drop_first().push(x));
        lemma_find_cached_push(s.drop_first(), x, k);
        assert(find_cached(s.push(x), k) == (if s[0].0 == k {
            Some(s[0].1)
        } else {
            find_cached(s.drop_first().push(x), k)
        }));
    }
}

/// Looking a URI up in counters extended by one entry.
proof fn lemma_find_count_push(s: Seq<(Seq<u8>, u32)>, x: (Seq<u8>, u32), u: Seq<u8>)
    ensures
        find_count(s.push(x), u) == (if find_count(s, u) is Some {
            find_count(s, u)
        } else if x.0 == u {
            Some(x.1)
        } else {
            None
        }),
    decreases s.len(),
{
    if s.len() == 0 {
        assert(find_count(s, u) is None);
        assert(s.push(x)[0] == x);
        assert(s.push(x).drop_first() =~= Seq::<(Seq<u8>, u32)>::empty());
        assert(find_count(s.push(x).drop_first(), u) is None);
    } else {
        assert(s.push(x)[0] == s[0]);
        assert(s.push(x).drop_first() =~= s.drop_first().push(x));
        lemma_find_count_push(s.drop_first(), x, u);
        assert(find_count(s.push(x), u) == (if s[0].0 == u {
            Some(s[0].1)
        } else {
            find_count(s.drop_first().push(x), u)
        }));
    }
}

/// What `count_pos` points at: the first counter for the URI, carrying
/// the value that `find_count` returns; `-1` exactly when there is none.
proof fn lemma_count_pos_spec(s: Seq<(Seq<u8>, u32)>, uri: Seq<u8>)
    ensures
        count_pos(s, uri) >= 0 ==> {
            let p = count_pos(s, uri);
            &&& 0 <= p < s.len()
            &&& s[p].0 == uri
            &&& forall|j: int| 0 <= j < p ==> s[j].0 != uri
            &&& find_count(s, uri) == Some(s[p].1)
        },
        count_pos(s, uri) < 0 ==> (forall|j: int| 0 <= j < s.len() ==> s[j].0 != uri)
            && find_count(s, uri) is None,
    decreases s.len(),
{
    if s.len() > 0 && s[0].0 != uri {
        lemma_count_pos_spec(s.drop_first(), uri);
        let p = count_pos(s, uri);
        if p >= 0 {
            assert forall|j: int| 0 <= j < p implies s[j].0 != uri by {
                if j > 0 {
                    assert(s.drop_first()[j - 1] == s[j]);
                }
            }
        } else {
            assert forall|j: int| 0 <= j < s.len() implies s[j].0 != uri by {
                if j > 0 {
                    assert(s.drop_first()[j - 1] == s[j]);
                }
            }
        }
    }
}

/// Updating the first counter for a URI, as observed through
/// `find_count`: the URI's counter takes the new value, every other
/// URI's counter reads as before.
proof fn lemma_find_count_update(s: Seq<(Seq<u8>, u32)>, p: int, uri: Seq<u8>, v: u32)
    requires
        0 <= p < s.len(),
        s[p].0 == uri,
        forall|j: int| 0 <= j < p ==> s[j].0 != uri,
    ensures
        find_count(s.update(p, (uri, v)), uri) == Some(v),
        forall|u: Seq<u8>| u != uri ==> find_count(s.update(p, (uri, v)), u) == find_count(s, u),
    decreases p,
{
    let t = s.update(p, (uri, v));
    if p == 0 {
        assert(t[0] == (uri, v));
        assert(t.drop_first() =~= s.drop_first());
        assert(find_count(t, uri) == Some(v));
        assert forall|u: Seq<u8>| u != uri implies find_count(t, u) == find_count(s, u) by {
            assert(find_count(t, u) == find_count(t.drop_first(), u));
            assert(find_count(s, u) == find_count(s.drop_first(), u));
        }
    } else {
        assert(t[0] == s[0]);
        assert(t.drop_first() =~= s.drop_first().update(p - 1, (uri, v)));
        assert forall|j: int| 0 <= j < p - 1 implies s.drop_first()[j].0 != uri by {
            assert(s.drop_first()[j] == s[j + 1]);
        }
        assert(s.drop_first()[p - 1] == s[p]);
        lemma_find_count_update(s.drop_first(), p - 1, uri, v);
        assert(s[0].0 != uri);
        assert(find_count(t, uri) == find_count(t.drop_first(), uri));
        assert forall|u: Seq<u8>| u != uri implies find_count(t, u) == find_count(s, u) by {
            if t[0].0 == u {
                assert(find_count(t, u) == Some(t[0].1));
                assert(find_count(s, u) == Some(s[0].1));
            } else {
                assert(find_count(t, u) == find_count(t.drop_first(), u));
                assert(find_count(s, u) == find_count(s.drop_first(), u));
            }
        }
    }
}

/// The reports of a fallback assignment: the embedded-NUL rejection
/// when the symbol holds one, then the missing port.
pub open spec fn fallback_diags(uri: Seq<u8>, sym: Seq<u8>) -> Seq<DiagView> {
    let report = seq![DiagView::PortNotFound { uri: uri, symbol: sym }];
    if sym.contains(0u8) {
        seq![DiagView::EmbeddedNul { text: sym }] + report
    } else {
        report
    }
}

/// The reports of a failed plugin lookup: the embedded-NUL rejection
/// when the URI holds one, then the missing plugin.
pub open spec fn missing_plugin_diags(uri: Seq<u8>) -> Seq<DiagView> {
    let report = seq![DiagView::PluginNotFound { uri: uri }];
    if uri.contains(0u8) {
        seq![DiagView::EmbeddedNul { text: uri }] + report
    } else {
        report
    }
}

/// The resolver's per-run state: the memoized resolutions and, per URI,
/// the next unused fallback index.
pub struct PortMap {
    pub cache: Vec<(PortId, u32)>,
    pub count: Vec<(Vec<u8>, u32)>,
}

impl PortMap {
    pub fn new() -> (r: PortMap)
        ensures
            r.cache@.len() == 0,
            r.count@.len() == 0,
    {
        PortMap { cache: Vec::new(), count: Vec::new() }
    }

    /// Resolves one occurrence to its current index, per the resolver
    /// policy; on a fallback assignment, reports the missing port.
    #[verifier::loop_isolation(false)]
    pub fn index(&mut self, plugin: &Plugin, id: PortId, diags: &mut Vec<Diagnostic>) -> (r: u32)
        ensures
            ({
                let cv0 = cache_view(old(self).cache@);
                let nv0 = count_view(old(self).count@);
                let lookup = plugin.spec_port_index(id.symbol@);
                let key = (id.uri@, id.symbol@);
                &&& r == resolve_index(cv0, nv0, lookup, plugin.num_ports, key)
                &&& cache_view(final(self).cache@) == resolve_cache(
                    cv0,
                    nv0,
                    lookup,
                    plugin.num_ports,
                    key,
                )
                &&& count_view(final(self).count@) == resolve_counts(
                    cv0,
                    nv0,
                    lookup,
                    plugin.num_ports,
                    key,
                )
                &&& if find_cached(cv0, key) is Some || lookup is Some {
                    final(diags)@ == old(diags)@
                } else {
                    diags_view(final(diags)@) == diags_view(old(diags)@) + fallback_diags(
                        id.uri@,
                        id.symbol@,
                    ) && old(diags)@.is_prefix_of(final(diags)@)
                }
            }),
    {
        let ghost cv0 = cache_view(self.cache@);
        let ghost nv0 = count_view(self.count@);
        let ghost key: KeyView = (id.uri@, id.symbol@);
        assert(cv0.len() == self.cache@.len());
        assert(nv0.len() == self.count@.len());
        let mut i: usize = 0;
        assert(cv0.skip(0) =~= cv0);
        while i < self.cache.len()
            invariant
                0 <= i <= self.cache@.len(),
                find_cached(cv0, key) == find_cached(cv0.skip(i as int), key),
            decreases self.cache@.len() - i,
        {
            assert(cv0.skip(i as int)[0] == cv0[i as int]);
            if bytes_eq(self.cache[i].0.uri.as_slice(), id.uri.as_slice()) && bytes_eq(
                self.cache[i].0.symbol.as_slice(),
                id.symbol.as_slice(),
            ) {
                assert(cv0[i as int].0 == key);
                assert(find_cached(cv0.skip(i as int), key) == Some(cv0[i as int].1));
                return self.cache[i].1;
            }
            i += 1;
            assert(cv0.skip(i - 1).drop_first() =~= cv0.skip(i as int));
        }
        assert(cv0.skip(i as int) =~= Seq::<(KeyView, u32)>::empty());
        assert(find_cached(cv0, key) is None);
        match plugin.port_index(id.symbol.as_slice()) {
            Some(v) => {
                self.cache.push((id, v));
                assert(cache_view(self.cache@) =~= cv0.push((key, v)));
                return v;
            },
            None => {},
        }
        if has_nul(id.symbol.as_slice()) {
            diags.push(Diagnostic::EmbeddedNul { text: id.symbol.clone() });
        }
        diags.push(Diagnostic::PortNotFound { uri: id.uri.clone(), symbol: id.symbol.clone() });
        proof {
            assert(diags_view(diags@) =~= diags_view(old(diags)@) + fallback_diags(
                id.uri@,
                id.symbol@,
            ));
            assert(diags@.take(old(diags)@.len() as int) =~= old(diags)@);
        }
        let mut j: usize = 0;
        assert(nv0.skip(0) =~= nv0);
        while j < self.count.len()
            invariant
                0 <= j <= self.count@.len(),
                count_view(self.count@) == nv0,
                cache_view(self.cache@) == cv0,
                find_count(nv0, key.0) == find_count(nv0.skip(j as int), key.0),
                forall|t: int| 0 <= t < j ==> nv0[t].0 != key.0,
            decreases self.count@.len() - j,
        {
            assert(nv0.skip(j as int)[0] == nv0[j as int]);
            if bytes_eq(self.count[j].0.as_slice(), id.uri.as_slice()) {
                let c = self.count[j].1;
                assert(nv0[j as int] == (key.0, c));
                assert(find_count(nv0.skip(j as int), key.0) == Some(c));
                let next = if c == u32::MAX {
                    c
                } else {
                    c + 1
                };
                let k = self.count[j].0.clone();
                assert(k@ == key.0);
                self.count[j] = (k, next);
                proof {
                    assert(count_view(self.count@) =~= nv0.update(j as int, (key.0, next)));
                    lemma_count_pos_spec(nv0, key.0);
                    assert(count_pos(nv0, key.0) == j as int);
                }
                self.cache.push((id, c));
                assert(cache_view(self.cache@) =~= cv0.push((key, c)));
                return c;
            }
            j += 1;
            assert(nv0.skip(j - 1).drop_first() =~= nv0.skip(j as int));
        }
        assert(nv0.skip(j as int) =~= Seq::<(Seq<u8>, u32)>::empty());
        assert(find_count(nv0, key.0) is None);
        proof {
            lemma_count_pos_spec(nv0, key.0);
        }
        let np = plugin.num_ports();
        let next = if np == u32::MAX {
            np
        } else {
            np + 1
        };
        self.count.push((id.uri.clone(), next));
        assert(count_view(self.count@) =~= nv0.push((key.0, next)));
        self.cache.push((id, np));
        assert(cache_view(self.cache@) =~= cv0.push((key, np)));
        np
    }
}

/// Edits sorted by range start.
pub open spec fn sorted_by_start(s: Seq<Replacement>) -> bool {
    forall|i: int, j: int|
        0 <= i < j < s.len() ==> s[i].location.start <= s[j].location.start
}

/// Sorts the edits by range start (selection sort: repeatedly move the
/// least remaining edit over).  No edit is lost, duplicated or changed.
fn sort_replacements(v: Vec<Replacement>) -> (r: Vec<Replacement>)
    ensures
        sorted_by_start(r@),
        r@.to_multiset() == v@.to_multiset(),
{
    broadcast use vstd::seq_lib::group_to_multiset_ensures;
    broadcast use vstd::multiset::group_multiset_axioms;

    let mut src = v;
    let mut out: Vec<Replacement> = Vec::new();
    assert(out@.to_multiset().add(src@.to_multiset()) =~= src@.to_multiset());
    while src.len() > 0
        invariant
            out@.to_multiset().add(src@.to_multiset()) == v@.to_multiset(),
            sorted_by_start(out@),
            forall|a: int, b: int|
                0 <= a < out@.len() && 0 <= b < src@.len() ==> out@[a].location.start
                    <= src@[b].location.start,
        decreases src@.len(),
    {
        let mut m: usize = 0;
        let mut t: usize = 1;
        while t < src.len()
            invariant
                0 < src@.len(),
                m < t <= src@.len() || (m == 0 && t <= 1),
                m < src@.len(),
                forall|k: int| 0 <= k < t ==> src@[m as int].location.start <= src@[k].location.start,
            decreases src@.len() - t,
        {
            if src[t].location.start < src[m].location.start {
                m = t;
            }
            t += 1;
        }
        let ghost src0 = src@;
        let ghost out0 = out@;
        let x = src.remove(m);
        out.push(x);
        proof {
            src0.to_multiset_ensures();
            out0.to_multiset_ensures();
            assert(out@ == out0.push(x));
            assert(out@.to_multiset() =~= out0.to_multiset().insert(x));
            assert(src@.to_multiset() =~= src0.to_multiset().remove(src0[m as int]));
            assert(src0.contains(src0[m as int]));
            assert(src0.to_multiset().count(x) > 0);
            assert forall|y: Replacement|
                out@.to_multiset().add(src@.to_multiset()).count(y) == out0.to_multiset().add(
                    src0.to_multiset(),
                ).count(y) by {
                broadcast use vstd::multiset::group_multiset_axioms;

            }
            assert(out@.to_multiset().add(src@.to_multiset()) =~= out0.to_multiset().add(
                src0.to_multiset(),
            ));
        }
    }
    proof {
        assert forall|a: Replacement| src@.to_multiset().count(a) == 0 by {
            if src@.to_multiset().count(a) > 0 {
                assert(src@.contains(a));
            }
        }
        assert(src@.to_multiset() =~= Multiset::<Replacement>::empty());
        assert(out@.to_multiset() =~= v@.to_multiset());
    }
    out
}

/// Whether an edit can be applied with the render cursor at `pos`: it
/// must start at or after the cursor and lie within the text.
pub open spec fn valid_edit(xml: Seq<u8>, r: Replacement, pos: int) -> bool {
    pos <= r.location.start && r.location.start <= r.location.end && r.location.end <= xml.len()
}

/// The rendered output from edit `i` on, with the cursor at `pos`:
/// unedited spans are copied verbatim, each applicable edit's range is
/// replaced by the minimal decimal rendering of its value, and an edit
/// out of order with an earlier one (or out of bounds) is dropped.
pub open spec fn render_from(xml: Seq<u8>, reps: Seq<Replacement>, i: int, pos: int) -> Seq<u8>
    decreases reps.len() - i,
    when 0 <= i <= reps.len()
{
    if i >= reps.len() {
        xml.skip(pos)
    } else {
        let r = reps[i];
        if valid_edit(xml, r, pos) {
            xml.subrange(pos, r.location.start as int) + dec_rep(r.value as nat) + render_from(
                xml,
                reps,
                i + 1,
                r.location.end as int,
            )
        } else {
            render_from(xml, reps, i + 1, pos)
        }
    }
}

/// The edits from `i` on that rendering with the cursor at `pos` drops,
/// reported as diagnostics in order.
pub open spec fn dropped_of(xml: Seq<u8>, reps: Seq<Replacement>, i: int, pos: int) -> Seq<
    Diagnostic,
>
    decreases reps.len() - i,
    when 0 <= i <= reps.len()
{
    if i >= reps.len() {
        Seq::empty()
    } else {
        let r = reps[i];
        if valid_edit(xml, r, pos) {
            dropped_of(xml, reps, i + 1, r.location.end as int)
        } else {
            seq![
                Diagnostic::OverlappingEdit {
                    start: r.location.start,
                    end: r.location.end,
                    value: r.value,
                },
            ] + dropped_of(xml, reps, i + 1, pos)
        }
    }
}

/// The original text plus the sorted edit sequence; immutable, and its
/// only operation is rendering the output text.
pub struct PatchedSession {
    pub xml: Vec<u8>,
    pub replacements: Vec<Replacement>,
}

impl PatchedSession {
    /// Renders the output: byte-identical to the original text except at
    /// the applicable edits' ranges, where the resolved index stands in
    /// minimal decimal form.  Each dropped edit is reported.
    pub fn render(&self, diags: &mut Vec<Diagnostic>) -> (out: Vec<u8>)
        ensures
            out@ == render_from(self.xml@, self.replacements@, 0, 0),
            final(diags)@ == old(diags)@ + dropped_of(self.xml@, self.replacements@, 0, 0),
    {
        let mut out: Vec<u8> = Vec::new();
        let mut pos: usize = 0;
        let mut i: usize = 0;
        while i < self.replacements.len()
            invariant
                0 <= i <= self.replacements@.len(),
                0 <= pos <= self.xml@.len(),
                render_from(self.xml@, self.replacements@, 0, 0) == out@ + render_from(
                    self.xml@,
                    self.replacements@,
                    i as int,
                    pos as int,
                ),
                old(diags)@ + dropped_of(self.xml@, self.replacements@, 0, 0) == diags@
                    + dropped_of(self.xml@, self.replacements@, i as int, pos as int),
            decreases self.replacements@.len() - i,
        {
            let r = self.replacements[i];
            let ghost out0 = out@;
            let ghost pos0 = pos as int;
            if pos <= r.location.start && r.location.start <= r.location.end && r.location.end
                <= self.xml.len() {
                out.extend_from_slice(
                    slice_subrange(self.xml.as_slice(), pos, r.location.start),
                );
                assert(out@ =~= out0 + self.xml@.subrange(pos0, r.location.start as int));
                push_decimal(r.value, &mut out);
                pos = r.location.end;
                i += 1;
                proof {
                    assert(render_from(self.xml@, self.replacements@, i - 1, pos0)
                        == self.xml@.subrange(pos0, r.location.start as int) + dec_rep(
                        r.value as nat,
                    ) + render_from(self.xml@, self.replacements@, i as int, pos as int));
                    assert(out0 + render_from(self.xml@, self.replacements@, i - 1, pos0)
                        =~= out@ + render_from(
                        self.xml@,
                        self.replacements@,
                        i as int,
                        pos as int,
                    ));
                }
            } else {
                let ghost d0 = diags@;
                diags.push(
                    Diagnostic::OverlappingEdit {
                        start: r.location.start,
                        end: r.location.end,
                        value: r.value,
                    },
                );
                i += 1;
                proof {
                    assert(dropped_of(self.xml@, self.replacements@, i - 1, pos0) =~= seq![
                        Diagnostic::OverlappingEdit {
                            start: r.location.start,
                            end: r.location.end,
                            value: r.value,
                        },
                    ] + dropped_of(self.xml@, self.replacements@, i as int, pos as int));
                    assert(d0 + dropped_of(self.xml@, self.replacements@, i - 1, pos0)
                        =~= diags@ + dropped_of(
                        self.xml@,
                        self.replacements@,
                        i as int,
                        pos as int,
                    ));
                }
            }
        }
        let ghost out1 = out@;
        out.extend_from_slice(slice_subrange(self.xml.as_slice(), pos, self.xml.len()));
        proof {
            assert(render_from(self.xml@, self.replacements@, i as int, pos as int)
                == self.xml@.skip(pos as int));
            assert(out@ =~= out1 + self.xml@.skip(pos as int));
            assert(out@ =~= render_from(self.xml@, self.replacements@, 0, 0));
            assert(dropped_of(self.xml@, self.replacements@, i as int, pos as int)
                =~= Seq::<Diagnostic>::empty());
            assert(diags@ =~= old(diags)@ + dropped_of(self.xml@, self.replacements@, 0, 0));
        }
        out
    }
}

/// Rendering with no edits returns the input text unchanged.
pub proof fn lemma_render_no_edits(xml: Seq<u8>, reps: Seq<Replacement>)
    requires
        reps.len() == 0,
    ensures
        render_from(xml, reps, 0, 0) == xml,
{
    assert(xml.skip(0) =~= xml);
}

/// The same port resolved twice in one run yields the same index both
/// times: once a key is resolved (found or fallback-assigned), every
/// later occurrence of it gets the cached value, whatever the provider
/// would answer the second time.
pub proof fn lemma_resolution_stable(
    cache: Seq<(KeyView, u32)>,
    counts: Seq<(Seq<u8>, u32)>,
    l1: Option<u32>,
    n1: u32,
    l2: Option<u32>,
    n2: u32,
    key: KeyView,
)
    ensures
        ({
            let r1 = resolve_index(cache, counts, l1, n1, key);
            let c1 = resolve_cache(cache, counts, l1, n1, key);
            let m1 = resolve_counts(cache, counts, l1, n1, key);
            resolve_index(c1, m1, l2, n2, key) == r1
        }),
{
    let r1 = resolve_index(cache, counts, l1, n1, key);
    if find_cached(cache, key) is None {
        lemma_find_cached_push(cache, (key, r1), key);
    }
}

/// Two distinct unresolvable symbols under one URI in one run get
/// distinct fallback indices, each at least the plugin's reported port
/// count.  This needs the URI's counter (when it exists) to be at least
/// that port count and not yet saturated, which holds throughout a run
/// that sees one plugin per URI and assigns fewer than `u32::MAX`
/// fallbacks.
pub proof fn lemma_fallbacks_distinct(
    cache: Seq<(KeyView, u32)>,
    counts: Seq<(Seq<u8>, u32)>,
    np: u32,
    uri: Seq<u8>,
    s1: Seq<u8>,
    s2: Seq<u8>,
)
    requires
        s1 != s2,
        find_cached(cache, (uri, s1)) is None,
        find_cached(cache, (uri, s2)) is None,
        match find_count(counts, uri) {
            Some(c) => np <= c < u32::MAX,
            None => np < u32::MAX,
        },
    ensures
        ({
            let r1 = resolve_index(cache, counts, None, np, (uri, s1));
            let c1 = resolve_cache(cache, counts, None, np, (uri, s1));
            let m1 = resolve_counts(cache, counts, None, np, (uri, s1));
            let r2 = resolve_index(c1, m1, None, np, (uri, s2));
            &&& r1 != r2
            &&& r1 >= np
            &&& r2 >= np
        }),
{
    let r1 = resolve_index(cache, counts, None, np, (uri, s1));
    let c1 = resolve_cache(cache, counts, None, np, (uri, s1));
    let m1 = resolve_counts(cache, counts, None, np, (uri, s1));
    lemma_find_cached_push(cache, ((uri, s1), r1), (uri, s2));
    assert(find_cached(c1, (uri, s2)) is None);
    lemma_count_pos_spec(counts, uri);
    match find_count(counts, uri) {
        Some(c) => {
            let p = count_pos(counts, uri);
            lemma_find_count_update(counts, p, uri, next_count(r1));
            assert(find_count(m1, uri) == Some(next_count(r1)));
        },
        None => {
            lemma_find_count_push(counts, (uri, next_count(r1)), uri);
            assert(find_count(m1, uri) == Some(next_count(r1)));
        },
    }
}

/// One reference element's occurrences applied in order to the resolver
/// state: the state afterward, and the edits generated.  An edit is
/// generated only when the resolved index differs from the recorded one.
pub open spec fn apply_params(
    cache: Seq<(KeyView, u32)>,
    counts: Seq<(Seq<u8>, u32)>,
    plugin: Plugin,
    uri: Seq<u8>,
    params: Seq<ParamView>,
) -> (Seq<(KeyView, u32)>, Seq<(Seq<u8>, u32)>, Seq<Replacement>)
    decreases params.len(),
{
    if params.len() == 0 {
        (cache, counts, Seq::empty())
    } else {
        let prev = apply_params(cache, counts, plugin, uri, params.drop_last());
        let p = params.last();
        let lookup = plugin.spec_port_index(p.0);
        let key = (uri, p.0);
        let idx = resolve_index(prev.0, prev.1, lookup, plugin.num_ports, key);
        let c2 = resolve_cache(prev.0, prev.1, lookup, plugin.num_ports, key);
        let n2 = resolve_counts(prev.0, prev.1, lookup, plugin.num_ports, key);
        if idx == p.2 {
            (c2, n2, prev.2)
        } else {
            (c2, n2, prev.2.push(Replacement { location: p.1, value: idx }))
        }
    }
}

/// Whether each occurrence's recorded index already equals what the
/// resolver returns for it at that point of the run.
pub open spec fn all_correct(
    cache: Seq<(KeyView, u32)>,
    counts: Seq<(Seq<u8>, u32)>,
    plugin: Plugin,
    uri: Seq<u8>,
    params: Seq<ParamView>,
) -> bool
    decreases params.len(),
{
    if params.len() == 0 {
        true
    } else {
        let prev = apply_params(cache, counts, plugin, uri, params.drop_last());
        let p = params.last();
        all_correct(cache, counts, plugin, uri, params.drop_last()) && resolve_index(
            prev.0,
            prev.1,
            plugin.spec_port_index(p.0),
            plugin.num_ports,
            (uri, p.0),
        ) == p.2
    }
}

/// A reference element generates no edits exactly when every one of its
/// occurrences already carries the index the resolver returns for it.
pub proof fn lemma_no_edits_when_correct(
    cache: Seq<(KeyView, u32)>,
    counts: Seq<(Seq<u8>, u32)>,
    plugin: Plugin,
    uri: Seq<u8>,
    params: Seq<ParamView>,
)
    ensures
        apply_params(cache, counts, plugin, uri, params).2.len() == 0 <==> all_correct(
            cache,
            counts,
            plugin,
            uri,
            params,
        ),
    decreases params.len(),
{
    if params.len() > 0 {
        lemma_no_edits_when_correct(cache, counts, plugin, uri, params.drop_last());
    }
}

/// The occurrences again, each now carrying the index the run resolved
/// for it: what the document records after the patch is applied.
pub open spec fn resolved_params(
    cache: Seq<(KeyView, u32)>,
    counts: Seq<(Seq<u8>, u32)>,
    plugin: Plugin,
    uri: Seq<u8>,
    params: Seq<ParamView>,
) -> Seq<ParamView>
    decreases params.len(),
{
    if params.len() == 0 {
        params
    } else {
        let prev = apply_params(cache, counts, plugin, uri, params.drop_last());
        let p = params.last();
        resolved_params(cache, counts, plugin, uri, params.drop_last()).push(
            (
                p.0,
                p.1,
                resolve_index(prev.0, prev.1, plugin.spec_port_index(p.0), plugin.num_ports, (
                    uri,
                    p.0,
                )),
            ),
        )
    }
}

/// Patching is idempotent at the element level: running the engine again
/// over an element whose indices were just resolved, from the same fresh
/// state and the same provider data, generates no further edits.
pub proof fn lemma_patch_idempotent(
    cache: Seq<(KeyView, u32)>,
    counts: Seq<(Seq<u8>, u32)>,
    plugin: Plugin,
    uri: Seq<u8>,
    params: Seq<ParamView>,
)
    ensures
        apply_params(
            cache,
            counts,
            plugin,
            uri,
            resolved_params(cache, counts, plugin, uri, params),
        ).2.len() == 0,
    decreases params.len(),
{
    let rp = resolved_params(cache, counts, plugin, uri, params);
    if params.len() > 0 {
        lemma_patch_idempotent(cache, counts, plugin, uri, params.drop_last());
        lemma_resolved_same_state(cache, counts, plugin, uri, params.drop_last());
        assert(rp.drop_last() =~= resolved_params(cache, counts, plugin, uri, params.drop_last()));
        assert(rp.last() == (
            params.last().0,
            params.last().1,
            resolve_index(
                apply_params(cache, counts, plugin, uri, params.drop_last()).0,
                apply_params(cache, counts, plugin, uri, params.drop_last()).1,
                plugin.spec_port_index(params.last().0),
                plugin.num_ports,
                (uri, params.last().0),
            ),
        ));
    }
}

/// The resolver state evolves the same way whether it walks the original
/// occurrences or the occurrences with their resolved indices written
/// back: resolution never reads the recorded index.
pub proof fn lemma_resolved_same_state(
    cache: Seq<(KeyView, u32)>,
    counts: Seq<(Seq<u8>, u32)>,
    plugin: Plugin,
    uri: Seq<u8>,
    params: Seq<ParamView>,
)
    ensures
        apply_params(
            cache,
            counts,
            plugin,
            uri,
            resolved_params(cache, counts, plugin, uri, params),
        ).0 == apply_params(cache, counts, plugin, uri, params).0,
        apply_params(
            cache,
            counts,
            plugin,
            uri,
            resolved_params(cache, counts, plugin, uri, params),
        ).1 == apply_params(cache, counts, plugin, uri, params).1,
    decreases params.len(),
{
    let rp = resolved_params(cache, counts, plugin, uri, params);
    if params.len() > 0 {
        lemma_resolved_same_state(cache, counts, plugin, uri, params.drop_last());
        assert(rp.drop_last() =~= resolved_params(cache, counts, plugin, uri, params.drop_last()));
        assert(rp.last().0 == params.last().0);
    }
}

/// The patch run's working state: the resolver views and the edits
/// collected so far.
pub type RunState = (Seq<(KeyView, u32)>, Seq<(Seq<u8>, u32)>, Seq<Replacement>);

/// The document walk over node `c`: a `Processor`-tagged node is read
/// as a candidate reference element and never descended into; when it
/// parses and its plugin is known, its occurrences are applied to the
/// resolver state in order and the edit list grows accordingly.  Any
/// other node's children are walked in document order; a child index
/// that does not point past its parent and into the tree is skipped.
pub open spec fn doc_node(t: Seq<NodeView>, plugins: Plugins, c: int, st: RunState) -> RunState
    decreases t.len() - c, 1int, 0int,
    when 0 <= c < t.len()
{
    if t[c].0 == "Processor".spec_bytes() {
        match parse_state(t, c) {
            None => st,
            Some(pv) => match plugins.spec_get(pv.0) {
                None => st,
                Some(plugin) => {
                    let r = apply_params(st.0, st.1, plugin, pv.0, params_of(pv.2, pv.1));
                    (r.0, r.1, st.2 + r.2)
                },
            },
        }
    } else {
        doc_children(t, plugins, c, 0, st)
    }
}

/// The document walk over node `c`'s children from position `k`.
pub open spec fn doc_children(
    t: Seq<NodeView>,
    plugins: Plugins,
    c: int,
    k: int,
    st: RunState,
) -> RunState
    decreases t.len() - c, 0int, t[c].2.len() - k,
    when 0 <= c < t.len() && 0 <= k <= t[c].2.len()
{
    if k >= t[c].2.len() {
        st
    } else {
        let ch = t[c].2[k];
        let st2 = if c < ch < t.len() {
            doc_node(t, plugins, ch, st)
        } else {
            st
        };
        doc_children(t, plugins, c, k + 1, st2)
    }
}

/// One whole patch run over a document model, from the given state: the
/// walk starts at the root, node 0.
pub open spec fn run_model(t: Seq<NodeView>, plugins: Plugins, st: RunState) -> RunState {
    if t.len() == 0 {
        st
    } else {
        doc_node(t, plugins, 0, st)
    }
}

/// The edits one patch run collects over a document model, in gathering
/// order.
pub open spec fn run_edits(t: Seq<NodeView>, plugins: Plugins) -> Seq<Replacement> {
    run_model(
        t,
        plugins,
        (Seq::<(KeyView, u32)>::empty(), Seq::<(Seq<u8>, u32)>::empty(), Seq::<
            Replacement,
        >::empty()),
    ).2
}

/// A walk over a document without reference elements changes nothing.
proof fn lemma_doc_node_no_refs(t: Seq<NodeView>, plugins: Plugins, c: int, st: RunState)
    requires
        0 <= c < t.len(),
        forall|j: int|
            0 <= j < t.len() && t[j].0 == "Processor".spec_bytes() ==> #[trigger] parse_state(
                t,
                j,
            ) is None,
    ensures
        doc_node(t, plugins, c, st) == st,
    decreases t.len() - c, 1int, 0int,
{
    if t[c].0 == "Processor".spec_bytes() {
        assert(parse_state(t, c) is None);
    } else {
        lemma_doc_children_no_refs(t, plugins, c, 0, st);
    }
}

/// A walk over the children of a node of such a document, likewise.
proof fn lemma_doc_children_no_refs(
    t: Seq<NodeView>,
    plugins: Plugins,
    c: int,
    k: int,
    st: RunState,
)
    requires
        0 <= c < t.len(),
        0 <= k <= t[c].2.len(),
        forall|j: int|
            0 <= j < t.len() && t[j].0 == "Processor".spec_bytes() ==> #[trigger] parse_state(
                t,
                j,
            ) is None,
    ensures
        doc_children(t, plugins, c, k, st) == st,
    decreases t.len() - c, 0int, t[c].2.len() - k,
{
    if k < t[c].2.len() {
        let ch = t[c].2[k];
        if c < ch < t.len() {
            lemma_doc_node_no_refs(t, plugins, ch, st);
        }
        lemma_doc_children_no_refs(t, plugins, c, k + 1, st);
    }
}

/// Whether the reference element at node `c` (when it is one, with a
/// known plugin) already carries, at run state `st`, exactly the
/// indices the resolver returns; for any other node, whether that holds
/// of every reference element below it, threading the state in walk
/// order.
pub open spec fn doc_node_correct(t: Seq<NodeView>, plugins: Plugins, c: int, st: RunState) -> bool
    decreases t.len() - c, 1int, 0int,
    when 0 <= c < t.len()
{
    if t[c].0 == "Processor".spec_bytes() {
        match parse_state(t, c) {
            None => true,
            Some(pv) => match plugins.spec_get(pv.0) {
                None => true,
                Some(plugin) => all_correct(st.0, st.1, plugin, pv.0, params_of(pv.2, pv.1)),
            },
        }
    } else {
        doc_children_correct(t, plugins, c, 0, st)
    }
}

/// The same, over node `c`'s children from position `k`.
pub open spec fn doc_children_correct(
    t: Seq<NodeView>,
    plugins: Plugins,
    c: int,
    k: int,
    st: RunState,
) -> bool
    decreases t.len() - c, 0int, t[c].2.len() - k,
    when 0 <= c < t.len() && 0 <= k <= t[c].2.len()
{
    if k >= t[c].2.len() {
        true
    } else {
        let ch = t[c].2[k];
        if c < ch < t.len() {
            doc_node_correct(t, plugins, ch, st) && doc_children_correct(
                t,
                plugins,
                c,
                k + 1,
                doc_node(t, plugins, ch, st),
            )
        } else {
            doc_children_correct(t, plugins, c, k + 1, st)
        }
    }
}

/// A walk over an already-correct node adds no edits.
proof fn lemma_doc_node_correct_no_edits(t: Seq<NodeView>, plugins: Plugins, c: int, st: RunState)
    requires
        0 <= c < t.len(),
        doc_node_correct(t, plugins, c, st),
    ensures
        doc_node(t, plugins, c, st).2 == st.2,
    decreases t.len() - c, 1int, 0int,
{
    if t[c].0 == "Processor".spec_bytes() {
        match parse_state(t, c) {
            None => {},
            Some(pv) => match plugins.spec_get(pv.0) {
                None => {},
                Some(plugin) => {
                    let ps = params_of(pv.2, pv.1);
                    lemma_no_edits_when_correct(st.0, st.1, plugin, pv.0, ps);
                    assert(st.2 + apply_params(st.0, st.1, plugin, pv.0, ps).2 =~= st.2);
                },
            },
        }
    } else {
        lemma_doc_children_correct_no_edits(t, plugins, c, 0, st);
    }
}

/// A walk over the children of an already-correct node, likewise.
proof fn lemma_doc_children_correct_no_edits(
    t: Seq<NodeView>,
    plugins: Plugins,
    c: int,
    k: int,
    st: RunState,
)
    requires
        0 <= c < t.len(),
        0 <= k <= t[c].2.len(),
        doc_children_correct(t, plugins, c, k, st),
    ensures
        doc_children(t, plugins, c, k, st).2 == st.2,
    decreases t.len() - c, 0int, t[c].2.len() - k,
{
    if k < t[c].2.len() {
        let ch = t[c].2[k];
        if c < ch < t.len() {
            lemma_doc_node_correct_no_edits(t, plugins, ch, st);
            lemma_doc_children_correct_no_edits(t, plugins, c, k + 1, doc_node(t, plugins, ch, st));
        } else {
            lemma_doc_children_correct_no_edits(t, plugins, c, k + 1, st);
        }
    }
}

/// An already-correct document generates no edits: when every reference
/// element the run meets carries, at its point of the run, exactly the
/// indices the resolver returns there, the edit list stays empty — the
/// engine is idempotent on a correct document.
pub proof fn lemma_correct_document_no_edits(t: Seq<NodeView>, plugins: Plugins)
    requires
        t.len() > 0 ==> doc_node_correct(
            t,
            plugins,
            0,
            (Seq::<(KeyView, u32)>::empty(), Seq::<(Seq<u8>, u32)>::empty(), Seq::<
                Replacement,
            >::empty()),
        ),
    ensures
        run_edits(t, plugins).len() == 0,
{
    if t.len() > 0 {
        lemma_doc_node_correct_no_edits(
            t,
            plugins,
            0,
            (Seq::<(KeyView, u32)>::empty(), Seq::<(Seq<u8>, u32)>::empty(), Seq::<
                Replacement,
            >::empty()),
        );
    }
}

/// A document with no reference elements generates no edits: every
/// `Processor`-tagged node that fails to read as a reference element is
/// skipped, and nothing else is read at all.
pub proof fn lemma_no_references_no_edits(t: Seq<NodeView>, plugins: Plugins)
    requires
        forall|j: int|
            0 <= j < t.len() && t[j].0 == "Processor".spec_bytes() ==> #[trigger] parse_state(
                t,
                j,
            ) is None,
    ensures
        run_edits(t, plugins).len() == 0,
{
    if t.len() > 0 {
        lemma_doc_node_no_refs(
            t,
            plugins,
            0,
            (Seq::<(KeyView, u32)>::empty(), Seq::<(Seq<u8>, u32)>::empty(), Seq::<
                Replacement,
            >::empty()),
        );
    }
}

/// Collects the edits of one patch run: the resolver state and the edit
/// list grown element by element over the document.
pub struct Patcher {
    pub ports: PortMap,
    pub replacements: Vec<Replacement>,
}

impl Patcher {
    pub fn new() -> (r: Patcher)
        ensures
            r.ports.cache@.len() == 0,
            r.ports.count@.len() == 0,
            r.replacements@.len() == 0,
    {
        Patcher { ports: PortMap::new(), replacements: Vec::new() }
    }

    /// Resolves every occurrence of one reference element, recording an
    /// edit for each whose index changed.  When no plugin is known under
    /// the element's URI the element is skipped whole, with a
    /// diagnostic, and nothing changes.
    #[verifier::loop_isolation(false)]
    pub fn handle_processor(
        &mut self,
        plugins: &Plugins,
        processor: &Processor,
        diags: &mut Vec<Diagnostic>,
    )
        ensures
            old(diags)@.is_prefix_of(final(diags)@),
            match plugins.spec_get(processor.uri@) {
                None => final(self).ports.cache@ == old(self).ports.cache@
                    && final(self).ports.count@ == old(self).ports.count@
                    && final(self).replacements@ == old(self).replacements@
                    && diags_view(final(diags)@) == diags_view(old(diags)@)
                    + missing_plugin_diags(processor.uri@),
                Some(plugin) => ({
                    let r = apply_params(
                        cache_view(old(self).ports.cache@),
                        count_view(old(self).ports.count@),
                        plugin,
                        processor.uri@,
                        processor.spec_parameters(),
                    );
                    &&& cache_view(final(self).ports.cache@) == r.0
                    &&& count_view(final(self).ports.count@) == r.1
                    &&& final(self).replacements@ == old(self).replacements@ + r.2
                }),
            },
    {
        let plugin = match plugins.get(processor.uri().as_slice()) {
            Some(p) => p,
            None => {
                if has_nul(processor.uri().as_slice()) {
                    diags.push(Diagnostic::EmbeddedNul { text: processor.uri().clone() });
                }
                diags.push(Diagnostic::PluginNotFound { uri: processor.uri().clone() });
                proof {
                    assert(diags_view(diags@) =~= diags_view(old(diags)@) + missing_plugin_diags(
                        processor.uri@,
                    ));
                    assert(diags@.take(old(diags)@.len() as int) =~= old(diags)@);
                }
                return ;
            },
        };
        let ghost cv0 = cache_view(self.ports.cache@);
        let ghost nv0 = count_view(self.ports.count@);
        let ghost pviews = processor.spec_parameters();
        let params = processor.parameters();
        assert(param_views(params@) == pviews);
        let mut k: usize = 0;
        assert(pviews.take(0) =~= Seq::<ParamView>::empty());
        assert(self.replacements@ =~= old(self).replacements@ + apply_params(
            cv0,
            nv0,
            *plugin,
            processor.uri@,
            pviews.take(0),
        ).2);
        while k < params.len()
            invariant
                0 <= k <= params@.len(),
                ({
                    let r = apply_params(cv0, nv0, *plugin, processor.uri@, pviews.take(k as int));
                    &&& cache_view(self.ports.cache@) == r.0
                    &&& count_view(self.ports.count@) == r.1
                    &&& self.replacements@ == old(self).replacements@ + r.2
                }),
                old(diags)@.is_prefix_of(diags@),
            decreases params@.len() - k,
        {
            let ghost mid = diags@;
            let p = &params[k];
            proof {
                assert(pviews[k as int] == (p.symbol@, p.location, p.old_index));
                assert(pviews.take(k + 1).drop_last() =~= pviews.take(k as int));
                assert(pviews.take(k + 1).last() == pviews[k as int]);
            }
            let id = PortId { uri: processor.uri().clone(), symbol: p.symbol.clone() };
            assert(id.uri@ == processor.uri@);
            assert(id.symbol@ == p.symbol@);
            let idx = self.ports.index(plugin, id, diags);
            if idx != p.old_index {
                self.replacements.push(Replacement { location: p.location, value: idx });
            }
            k += 1;
            proof {
                lemma_prefix_trans(old(diags)@, mid, diags@);
                let r = apply_params(cv0, nv0, *plugin, processor.uri@, pviews.take(k as int));
                assert(self.replacements@ =~= old(self).replacements@ + r.2);
            }
        }
        assert(pviews.take(params@.len() as int) =~= pviews);
    }

    /// The document walk over node `c`: a `Processor`-tagged node is
    /// handled as a candidate reference element and never descended
    /// into; any other node's children are walked in document order.
    fn doc_visit(
        &mut self,
        tree: &XmlTree,
        plugins: &Plugins,
        c: usize,
        diags: &mut Vec<Diagnostic>,
    )
        requires
            c < tree.nodes@.len(),
        ensures
            old(diags)@.is_prefix_of(final(diags)@),
            ({
                let st = doc_node(
                    tree_view(tree),
                    *plugins,
                    c as int,
                    (
                        cache_view(old(self).ports.cache@),
                        count_view(old(self).ports.count@),
                        old(self).replacements@,
                    ),
                );
                &&& cache_view(final(self).ports.cache@) == st.0
                &&& count_view(final(self).ports.count@) == st.1
                &&& final(self).replacements@ == st.2
            }),
        decreases tree.nodes@.len() - c, 1int, 0int,
    {
        let ghost tv = tree_view(tree);
        let node = &tree.nodes[c];
        proof {
            assert(tv[c as int] == node_view(tree.nodes@[c as int]));
        }
        if bytes_eq(node.tag.as_slice(), "Processor".as_bytes()) {
            let ghost mid0 = diags@;
            match Processor::parse(tree, c, diags) {
                Some(p) => {
                    let ghost mid1 = diags@;
                    self.handle_processor(plugins, &p, diags);
                    proof {
                        lemma_prefix_trans(mid0, mid1, diags@);
                        assert(p.spec_parameters() == params_of(
                            p.parameters@,
                            crate::session::symbols_view(p.symbols@),
                        ));
                    }
                },
                None => {},
            }
        } else {
            self.doc_visit_children(tree, plugins, c, 0, diags);
        }
    }

    /// The document walk over node `c`'s children from position `k`.
    fn doc_visit_children(
        &mut self,
        tree: &XmlTree,
        plugins: &Plugins,
        c: usize,
        k: usize,
        diags: &mut Vec<Diagnostic>,
    )
        requires
            c < tree.nodes@.len(),
            k <= tree.nodes@[c as int].children@.len(),
        ensures
            old(diags)@.is_prefix_of(final(diags)@),
            ({
                let st = doc_children(
                    tree_view(tree),
                    *plugins,
                    c as int,
                    k as int,
                    (
                        cache_view(old(self).ports.cache@),
                        count_view(old(self).ports.count@),
                        old(self).replacements@,
                    ),
                );
                &&& cache_view(final(self).ports.cache@) == st.0
                &&& count_view(final(self).ports.count@) == st.1
                &&& final(self).replacements@ == st.2
            }),
        decreases tree.nodes@.len() - c, 0int, tree.nodes@[c as int].children@.len() - k,
    {
        let ghost tv = tree_view(tree);
        proof {
            assert(tv[c as int] == node_view(tree.nodes@[c as int]));
            assert(tv.len() == tree.nodes@.len());
        }
        if k >= tree.nodes[c].children.len() {
            return ;
        }
        let ch = tree.nodes[c].children[k];
        proof {
            assert(tv[c as int].2[k as int] == ch as int);
        }
        if c < ch && ch < tree.nodes.len() {
            self.doc_visit(tree, plugins, ch, diags);
        }
        let ghost mid = diags@;
        self.doc_visit_children(tree, plugins, c, k + 1, diags);
        proof {
            lemma_prefix_trans(old(diags)@, mid, diags@);
        }
    }

    /// Walks the whole document in document order and handles every
    /// reference element met; the walk does not descend into one.
    pub fn populate_replacements(
        &mut self,
        plugins: &Plugins,
        tree: &XmlTree,
        diags: &mut Vec<Diagnostic>,
    )
        ensures
            old(diags)@.is_prefix_of(final(diags)@),
            ({
                let st = run_model(
                    tree_view(tree),
                    *plugins,
                    (
                        cache_view(old(self).ports.cache@),
                        count_view(old(self).ports.count@),
                        old(self).replacements@,
                    ),
                );
                &&& cache_view(final(self).ports.cache@) == st.0
                &&& count_view(final(self).ports.count@) == st.1
                &&& final(self).replacements@ == st.2
            }),
    {
        proof {
            assert(tree_view(tree).len() == tree.nodes@.len());
        }
        if tree.nodes.len() == 0 {
            return ;
        }
        self.doc_visit(tree, plugins, 0, diags);
    }

    /// Seals the run: the collected edits, sorted by position, over the
    /// original text.
    pub fn run(self, xml_bytes: Vec<u8>) -> (r: PatchedSession)
        ensures
            r.xml@ == xml_bytes@,
            sorted_by_start(r.replacements@),
            r.replacements@.to_multiset() == self.replacements@.to_multiset(),
    {
        PatchedSession { xml: xml_bytes, replacements: sort_replacements(self.replacements) }
    }
}

/// Why a patch run failed outright, with no output produced.
#[derive(Debug)]
pub enum PatchError {
    /// The text is not well-formed XML.
    Xml(roxmltree::Error),
}

/// Patches one session document: parses it, resolves every reference
/// element's occurrences against the plugin data, and returns the
/// original text together with the sorted edit list, ready to render.
/// Fails exactly when the text is not well-formed XML; every
/// recoverable condition is reported in `diags` instead and skipped.
/// The edits are exactly those one run over the parsed document's
/// model collects.
pub fn patch(xml: &str, plugins: &Plugins, diags: &mut Vec<Diagnostic>) -> (r: Result<
    PatchedSession,
    PatchError,
>)
    ensures
        old(diags)@.is_prefix_of(final(diags)@),
        r is Ok <==> well_formed_xml(xml.spec_bytes()),
        match r {
            Ok(s) => s.xml@ == xml.spec_bytes() && sorted_by_start(s.replacements@)
                && s.replacements@.to_multiset() == run_edits(
                doc_model(xml.spec_bytes()),
                *plugins,
            ).to_multiset(),
            Err(_) => final(diags)@ == old(diags)@,
        },
{
    let tree = match xml::parse(xml) {
        Ok(t) => t,
        Err(e) => {
            return Err(PatchError::Xml(e));
        },
    };
    let mut patcher = Patcher::new();
    proof {
        assert(cache_view(patcher.ports.cache@) =~= Seq::<(KeyView, u32)>::empty());
        assert(count_view(patcher.ports.count@) =~= Seq::<(Seq<u8>, u32)>::empty());
        assert(patcher.replacements@ =~= Seq::<Replacement>::empty());
    }
    patcher.populate_replacements(plugins, &tree, diags);
    Ok(patcher.run(xml.as_bytes_vec()))
}

} // verus!

