//! Extraction of plugin-reference elements from the parsed session
//! document.
//!
//! A reference element is recognized by a `type` attribute equal to
//! `lv2` and identified by its `unique-id` attribute (the plugin URI).
//! Inside it, two occurrence shapes carry a numeric port index: an
//! `AutomationList` element whose `automation-id` attribute is
//! `parameter-` followed by digits, and a `Controllable` element with a
//! digit-valued `parameter` attribute plus a `symbol` attribute.  Each
//! occurrence records the exact byte range of its digit run; occurrences
//! whose index never gains a symbol cannot be resolved by name and are
//! dropped from the element's parameter stream.
//!
//! The walk below every reference element is in document order and does
//! not descend into an occurrence-carrying element; the spec functions
//! `walk_state` and `walk_diags` state that walk, and every extraction
//! function is proved equal to them.

use crate::bytes::{bytes_eq, lemma_prefix_trans, starts_with};
use crate::decimal::{parse_u32, spec_parse_u32};
use crate::diag::{diags_view, DiagView, Diagnostic};
use crate::xml::{attr_view, node_view, tree_view, AttrView, NodeView, XmlAttr, XmlNode, XmlTree};
use vstd::prelude::*;
use vstd::slice::{slice_subrange, slice_to_vec};
use vstd::string::StringSliceAdditionalSpecFns;

verus! {

/// A parameter index parsed strictly from all-digit text.
#[derive(Clone, Copy, Debug, PartialEq, Eq, Structural)]
pub struct ParameterIndex(pub u32);

impl ParameterIndex {
    /// Strict parse: accepts exactly a non-empty all-digit run whose
    /// value fits; any other text is rejected.
    pub fn parse(s: &[u8]) -> (r: Option<ParameterIndex>)
        ensures
            match r {
                Some(p) => spec_parse_u32(s@) == Some(p.0),
                None => spec_parse_u32(s@) is None,
            },
    {
        match parse_u32(s) {
            Some(v) => Some(ParameterIndex(v)),
            None => None,
        }
    }
}

/// Half-open byte range `[start, end)` into the original text, locating
/// exactly a digit run (no surrounding quotes or prefixes).
#[derive(Clone, Copy, Debug, PartialEq, Eq, Structural)]
pub struct ByteRange {
    pub start: usize,
    pub end: usize,
}

/// One resolvable occurrence: the port symbol, the byte range of its
/// digit text, and the index currently recorded there.
pub struct Parameter {
    pub symbol: Vec<u8>,
    pub location: ByteRange,
    pub old_index: u32,
}

/// One plugin-reference element: the plugin URI, the index-to-symbol
/// associations found inside it, and every index occurrence in it, in
/// document order.
pub struct Processor {
    pub uri: Vec<u8>,
    pub symbols: Vec<(u32, Vec<u8>)>,
    pub parameters: Vec<(u32, ByteRange)>,
}

/// First attribute with the given name.
pub open spec fn find_attr(attrs: Seq<AttrView>, name: Seq<u8>) -> Option<AttrView>
    decreases attrs.len(),
{
    if attrs.len() == 0 {
        None
    } else if attrs[0].0 == name {
        Some(attrs[0])
    } else {
        find_attr(attrs.drop_first(), name)
    }
}

/// View of the symbol table.
pub open spec fn symbols_view(s: Seq<(u32, Vec<u8>)>) -> Seq<(u32, Seq<u8>)> {
    s.map(|i: int, p: (u32, Vec<u8>)| (p.0, p.1@))
}

/// Symbol associated with index `idx`, if any.  The table never holds
/// two entries for one index, so the first match is the association.
pub open spec fn find_symbol(symbols: Seq<(u32, Seq<u8>)>, idx: u32) -> Option<Seq<u8>>
    decreases symbols.len(),
{
    if symbols.len() == 0 {
        None
    } else if symbols[0].0 == idx {
        Some(symbols[0].1)
    } else {
        find_symbol(symbols.drop_first(), idx)
    }
}

/// Position of the association for `idx`, or `-1` when there is none.
pub open spec fn sym_pos(symbols: Seq<(u32, Seq<u8>)>, idx: u32) -> int
    decreases symbols.len(),
{
    if symbols.len() == 0 {
        -1
    } else if symbols[0].0 == idx {
        0
    } else {
        let r = sym_pos(symbols.drop_first(), idx);
        if r < 0 {
            -1
        } else {
            r + 1
        }
    }
}

/// The table after recording that `idx` maps to `sym`: the latest
/// association wins.
pub open spec fn set_symbol_spec(symbols: Seq<(u32, Seq<u8>)>, idx: u32, sym: Seq<u8>) -> Seq<
    (u32, Seq<u8>),
> {
    let p = sym_pos(symbols, idx);
    if p >= 0 {
        symbols.update(p, (idx, sym))
    } else {
        symbols.push((idx, sym))
    }
}

/// What `sym_pos` points at: the first association for `idx`, carrying
/// the symbol that `find_symbol` returns; `-1` exactly when none exists.
proof fn lemma_sym_pos_spec(s: Seq<(u32, Seq<u8>)>, idx: u32)
    ensures
        sym_pos(s, idx) >= 0 ==> {
            let p = sym_pos(s, idx);
            &&& 0 <= p < s.len()
            &&& s[p].0 == idx
            &&& forall|j: int| 0 <= j < p ==> s[j].0 != idx
            &&& find_symbol(s, idx) == Some(s[p].1)
        },
        sym_pos(s, idx) < 0 ==> (forall|j: int| 0 <= j < s.len() ==> s[j].0 != idx)
            && find_symbol(s, idx) is None,
    decreases s.len(),
{
    if s.len() > 0 && s[0].0 != idx {
        lemma_sym_pos_spec(s.drop_first(), idx);
        let p = sym_pos(s, idx);
        if p >= 0 {
            assert forall|j: int| 0 <= j < p implies s[j].0 != idx by {
                if j > 0 {
                    assert(s.drop_first()[j - 1] == s[j]);
                }
            }
        } else {
            assert forall|j: int| 0 <= j < s.len() implies s[j].0 != idx by {
                if j > 0 {
                    assert(s.drop_first()[j - 1] == s[j]);
                }
            }
        }
    }
}

/// View of one extracted occurrence: symbol, location, recorded index.
pub type ParamView = (Seq<u8>, ByteRange, u32);

/// The occurrences of `params` that have a known symbol, in order.
pub open spec fn params_of(
    params: Seq<(u32, ByteRange)>,
    symbols: Seq<(u32, Seq<u8>)>,
) -> Seq<ParamView>
    decreases params.len(),
{
    if params.len() == 0 {
        Seq::empty()
    } else {
        let rest = params_of(params.drop_last(), symbols);
        match find_symbol(symbols, params.last().0) {
            Some(sym) => rest.push((sym, params.last().1, params.last().0)),
            None => rest,
        }
    }
}

/// Views of a parameter vector's entries.
pub open spec fn param_views(ps: Seq<Parameter>) -> Seq<ParamView> {
    ps.map(|i: int, p: Parameter| (p.symbol@, p.location, p.old_index))
}

/// Extraction state of one element: associations and occurrences.
pub type ExtState = (Seq<(u32, Seq<u8>)>, Seq<(u32, ByteRange)>);

/// Effect of one index-holder occurrence on the state: when the
/// `automation-id` attribute exists, carries the `parameter-` prefix,
/// its digit suffix parses strictly, and the shifted range start still
/// fits, one occurrence (value, range of the digit suffix) is recorded
/// with no symbol association; otherwise nothing changes.
pub open spec fn auto_state(n: NodeView, st: ExtState) -> ExtState {
    match find_attr(n.1, "automation-id".spec_bytes()) {
        None => st,
        Some(a) => {
            let plen = "parameter-".spec_bytes().len() as int;
            if a.1.len() < plen || a.1.take(plen) != "parameter-".spec_bytes() {
                st
            } else {
                match spec_parse_u32(a.1.skip(plen)) {
                    None => st,
                    Some(v) => if a.2 + plen <= usize::MAX as int {
                        (
                            st.0,
                            st.1.push(
                                (v, ByteRange { start: (a.2 + plen) as usize, end: a.3 as usize }),
                            ),
                        )
                    } else {
                        st
                    },
                }
            }
        },
    }
}

/// The report of one index-holder occurrence: the digit suffix, when it
/// fails the strict parse.
pub open spec fn auto_diags(n: NodeView) -> Seq<DiagView> {
    match find_attr(n.1, "automation-id".spec_bytes()) {
        None => Seq::empty(),
        Some(a) => {
            let plen = "parameter-".spec_bytes().len() as int;
            if a.1.len() < plen || a.1.take(plen) != "parameter-".spec_bytes() {
                Seq::empty()
            } else if spec_parse_u32(a.1.skip(plen)) is None {
                seq![DiagView::BadIndex { text: a.1.skip(plen) }]
            } else {
                Seq::empty()
            }
        },
    }
}

/// Effect of one controllable occurrence on the state: when the
/// `parameter` attribute exists, parses strictly, and a `symbol`
/// attribute is present, the occurrence (value, range of the whole
/// attribute value) is recorded and the index-to-symbol association
/// with it; otherwise nothing changes.
pub open spec fn controllable_state(n: NodeView, st: ExtState) -> ExtState {
    match find_attr(n.1, "parameter".spec_bytes()) {
        None => st,
        Some(a) => match spec_parse_u32(a.1) {
            None => st,
            Some(v) => match find_attr(n.1, "symbol".spec_bytes()) {
                None => st,
                Some(s) => (
                    set_symbol_spec(st.0, v, s.1),
                    st.1.push((v, ByteRange { start: a.2 as usize, end: a.3 as usize })),
                ),
            },
        },
    }
}

/// The report of one controllable occurrence: its index text when the
/// strict parse fails, else the element's offset when `symbol` is
/// missing.
pub open spec fn controllable_diags(n: NodeView) -> Seq<DiagView> {
    match find_attr(n.1, "parameter".spec_bytes()) {
        None => Seq::empty(),
        Some(a) => match spec_parse_u32(a.1) {
            None => seq![DiagView::BadIndex { text: a.1 }],
            Some(v) => match find_attr(n.1, "symbol".spec_bytes()) {
                None => seq![DiagView::MissingSymbol { at: n.3 }],
                Some(s) => Seq::empty(),
            },
        },
    }
}

/// The element-local walk, on the state: node `c` is read as an
/// occurrence when its tag is one of the two occurrence-carrying tags
/// (and the walk does not descend into it); otherwise its children are
/// walked in order.  A child index that does not point past its parent
/// and into the tree is skipped.
pub open spec fn walk_state(t: Seq<NodeView>, c: int, st: ExtState) -> ExtState
    decreases t.len() - c, 1int, 0int,
    when 0 <= c < t.len()
{
    let n = t[c];
    if n.0 == "AutomationList".spec_bytes() {
        auto_state(n, st)
    } else if n.0 == "Controllable".spec_bytes() {
        controllable_state(n, st)
    } else {
        walk_children_state(t, c, 0, st)
    }
}

/// The element-local walk over node `c`'s children from position `k`.
pub open spec fn walk_children_state(t: Seq<NodeView>, c: int, k: int, st: ExtState) -> ExtState
    decreases t.len() - c, 0int, t[c].2.len() - k,
    when 0 <= c < t.len() && 0 <= k <= t[c].2.len()
{
    if k >= t[c].2.len() {
        st
    } else {
        let ch = t[c].2[k];
        let st2 = if c < ch < t.len() {
            walk_state(t, ch, st)
        } else {
            st
        };
        walk_children_state(t, c, k + 1, st2)
    }
}

/// The reports of the element-local walk, in walk order.  They depend
/// on the nodes alone, never on the state so far.
pub open spec fn walk_diags(t: Seq<NodeView>, c: int) -> Seq<DiagView>
    decreases t.len() - c, 1int, 0int,
    when 0 <= c < t.len()
{
    let n = t[c];
    if n.0 == "AutomationList".spec_bytes() {
        auto_diags(n)
    } else if n.0 == "Controllable".spec_bytes() {
        controllable_diags(n)
    } else {
        walk_children_diags(t, c, 0)
    }
}

/// The reports of the walk over node `c`'s children from position `k`.
pub open spec fn walk_children_diags(t: Seq<NodeView>, c: int, k: int) -> Seq<DiagView>
    decreases t.len() - c, 0int, t[c].2.len() - k,
    when 0 <= c < t.len() && 0 <= k <= t[c].2.len()
{
    if k >= t[c].2.len() {
        Seq::empty()
    } else {
        let ch = t[c].2[k];
        let d = if c < ch < t.len() {
            walk_diags(t, ch)
        } else {
            Seq::empty()
        };
        d + walk_children_diags(t, c, k + 1)
    }
}

/// Whether node `c` is a reference element: its `type` attribute is
/// exactly `lv2`.
pub open spec fn is_reference(n: NodeView) -> bool {
    match find_attr(n.1, "type".spec_bytes()) {
        Some(a) => a.1 == "lv2".spec_bytes(),
        None => false,
    }
}

/// What reading one candidate element yields: for a reference element
/// with its identity attribute, the URI and the walk's associations and
/// occurrences; nothing otherwise.
pub open spec fn parse_state(t: Seq<NodeView>, c: int) -> Option<
    (Seq<u8>, Seq<(u32, Seq<u8>)>, Seq<(u32, ByteRange)>),
> {
    if !is_reference(t[c]) {
        None
    } else {
        match find_attr(t[c].1, "unique-id".spec_bytes()) {
            None => None,
            Some(u) => {
                let st = walk_children_state(
                    t,
                    c,
                    0,
                    (Seq::<(u32, Seq<u8>)>::empty(), Seq::<(u32, ByteRange)>::empty()),
                );
                Some((u.1, st.0, st.1))
            },
        }
    }
}

/// The reports of reading one candidate element: the element's offset
/// when a reference element lacks its identity, else the walk's reports.
pub open spec fn parse_diags(t: Seq<NodeView>, c: int) -> Seq<DiagView> {
    if !is_reference(t[c]) {
        Seq::empty()
    } else {
        match find_attr(t[c].1, "unique-id".spec_bytes()) {
            None => seq![DiagView::MissingUri { at: t[c].3 }],
            Some(u) => walk_children_diags(t, c, 0),
        }
    }
}

/// First attribute of the node with the given name.
fn attr_of<'a>(node: &'a XmlNode, name: &[u8]) -> (r: Option<&'a XmlAttr>)
    ensures
        match r {
            Some(a) => find_attr(node_view(*node).1, name@) == Some(attr_view(*a)),
            None => find_attr(node_view(*node).1, name@) is None,
        },
{
    let ghost av = node_view(*node).1;
    let mut i: usize = 0;
    assert(av.skip(0) =~= av);
    assert(av.len() == node.attrs@.len());
    while i < node.attrs.len()
        invariant
            0 <= i <= node.attrs@.len(),
            av == node_view(*node).1,
            av.len() == node.attrs@.len(),
            find_attr(av, name@) == find_attr(av.skip(i as int), name@),
        decreases node.attrs@.len() - i,
    {
        assert(av.skip(i as int)[0] == av[i as int]);
        assert(av[i as int] == attr_view(node.attrs@[i as int]));
        if bytes_eq(node.attrs[i].name.as_slice(), name) {
            return Some(&node.attrs[i]);
        }
        i += 1;
        assert(av.skip(i - 1).drop_first() =~= av.skip(i as int));
    }
    assert(av.skip(i as int) =~= Seq::<AttrView>::empty());
    None
}

impl Processor {
    /// The occurrences this element exposes for resolution: every
    /// occurrence whose index has a known symbol, in document order.
    pub open spec fn spec_parameters(&self) -> Seq<ParamView> {
        params_of(self.parameters@, symbols_view(self.symbols@))
    }

    /// The plugin URI recorded in the element's identity attribute.
    pub fn uri(&self) -> (r: &Vec<u8>)
        ensures
            r@ == self.uri@,
    {
        &self.uri
    }

    /// First-match lookup in the symbol table.
    fn symbol_for(&self, idx: u32) -> (r: Option<&Vec<u8>>)
        ensures
            match r {
                Some(v) => find_symbol(symbols_view(self.symbols@), idx) == Some(v@),
                None => find_symbol(symbols_view(self.symbols@), idx) is None,
            },
    {
        let ghost sv = symbols_view(self.symbols@);
        let mut i: usize = 0;
        assert(sv.skip(0) =~= sv);
        assert(sv.len() == self.symbols@.len());
        while i < self.symbols.len()
            invariant
                0 <= i <= self.symbols@.len(),
                sv == symbols_view(self.symbols@),
                sv.len() == self.symbols@.len(),
                find_symbol(sv, idx) == find_symbol(sv.skip(i as int), idx),
            decreases self.symbols@.len() - i,
        {
            assert(sv.skip(i as int)[0] == sv[i as int]);
            assert(sv[i as int] == (self.symbols@[i as int].0, self.symbols@[i as int].1@));
            if self.symbols[i].0 == idx {
                return Some(&self.symbols[i].1);
            }
            i += 1;
            assert(sv.skip(i - 1).drop_first() =~= sv.skip(i as int));
        }
        assert(sv.skip(i as int) =~= Seq::<(u32, Seq<u8>)>::empty());
        None
    }

    /// The element's resolvable occurrences, in document order.
    pub fn parameters(&self) -> (r: Vec<Parameter>)
        ensures
            param_views(r@) == self.spec_parameters(),
    {
        let ghost sv = symbols_view(self.symbols@);
        let mut out: Vec<Parameter> = Vec::new();
        let mut i: usize = 0;
        assert(self.parameters@.take(0) =~= Seq::<(u32, ByteRange)>::empty());
        assert(param_views(out@) =~= params_of(self.parameters@.take(0), sv));
        while i < self.parameters.len()
            invariant
                0 <= i <= self.parameters@.len(),
                sv == symbols_view(self.symbols@),
                param_views(out@) == params_of(self.parameters@.take(i as int), sv),
            decreases self.parameters@.len() - i,
        {
            let pr = self.parameters[i];
            proof {
                assert(self.parameters@.take(i + 1).drop_last() =~= self.parameters@.take(
                    i as int,
                ));
                assert(self.parameters@.take(i + 1).last() == self.parameters@[i as int]);
            }
            match self.symbol_for(pr.0) {
                Some(v) => {
                    let sym = v.clone();
                    assert(sym@ =~= v@);
                    out.push(Parameter { symbol: sym, location: pr.1, old_index: pr.0 });
                    assert(param_views(out@) =~= params_of(self.parameters@.take(i + 1), sv));
                },
                None => {
                    assert(param_views(out@) =~= params_of(self.parameters@.take(i + 1), sv));
                },
            }
            i += 1;
        }
        assert(self.parameters@.take(i as int) =~= self.parameters@);
        out
    }

    /// Records an occurrence of the index-holder shape; exactly
    /// `auto_state` and `auto_diags` of the node.
    fn on_automation_list(&mut self, node: &XmlNode, diags: &mut Vec<Diagnostic>)
        ensures
            final(self).uri@ == old(self).uri@,
            ({
                let st = auto_state(
                    node_view(*node),
                    (symbols_view(old(self).symbols@), old(self).parameters@),
                );
                symbols_view(final(self).symbols@) == st.0 && final(self).parameters@ == st.1
            }),
            diags_view(final(diags)@) == diags_view(old(diags)@) + auto_diags(node_view(*node)),
            old(diags)@.is_prefix_of(final(diags)@),
    {
        let ghost nv = node_view(*node);
        let attr = match attr_of(node, "automation-id".as_bytes()) {
            Some(a) => a,
            None => {
                assert(diags_view(diags@) =~= diags_view(old(diags)@) + auto_diags(nv));
                return ;
            },
        };
        let prefix: &[u8] = "parameter-".as_bytes();
        if !starts_with(attr.value.as_slice(), prefix) {
            assert(diags_view(diags@) =~= diags_view(old(diags)@) + auto_diags(nv));
            return ;
        }
        let digits = slice_subrange(attr.value.as_slice(), prefix.len(), attr.value.len());
        assert(digits@ =~= attr.value@.skip(prefix@.len() as int));
        let parsed = match ParameterIndex::parse(digits) {
            Some(p) => p.0,
            None => {
                diags.push(Diagnostic::BadIndex { text: slice_to_vec(digits) });
                proof {
                    assert(diags@ == old(diags)@.push(diags@.last()));
                    assert(diags_view(diags@) =~= diags_view(old(diags)@) + auto_diags(nv));
                    assert(old(diags)@.is_prefix_of(diags@)) by {
                        assert(diags@.take(old(diags)@.len() as int) =~= old(diags)@);
                    }
                }
                return ;
            },
        };
        if attr.start > usize::MAX - prefix.len() {
            // the reported range cannot be real: its digit offset would
            // not even fit in memory; skip the occurrence
            assert(diags_view(diags@) =~= diags_view(old(diags)@) + auto_diags(nv));
            return ;
        }
        self.parameters.push((parsed, ByteRange { start: attr.start + prefix.len(), end: attr.end }));
        assert(diags_view(diags@) =~= diags_view(old(diags)@) + auto_diags(nv));
    }

    /// Records an occurrence of the controllable shape; exactly
    /// `controllable_state` and `controllable_diags` of the node.
    fn on_controllable(&mut self, node: &XmlNode, diags: &mut Vec<Diagnostic>)
        ensures
            final(self).uri@ == old(self).uri@,
            ({
                let st = controllable_state(
                    node_view(*node),
                    (symbols_view(old(self).symbols@), old(self).parameters@),
                );
                symbols_view(final(self).symbols@) == st.0 && final(self).parameters@ == st.1
            }),
            diags_view(final(diags)@) == diags_view(old(diags)@) + controllable_diags(
                node_view(*node),
            ),
            old(diags)@.is_prefix_of(final(diags)@),
    {
        let ghost nv = node_view(*node);
        let index_attr = match attr_of(node, "parameter".as_bytes()) {
            Some(a) => a,
            None => {
                assert(diags_view(diags@) =~= diags_view(old(diags)@) + controllable_diags(nv));
                return ;
            },
        };
        let parsed = match ParameterIndex::parse(index_attr.value.as_slice()) {
            Some(p) => p.0,
            None => {
                diags.push(Diagnostic::BadIndex { text: index_attr.value.clone() });
                proof {
                    assert(diags_view(diags@) =~= diags_view(old(diags)@) + controllable_diags(
                        nv,
                    ));
                    assert(diags@.take(old(diags)@.len() as int) =~= old(diags)@);
                }
                return ;
            },
        };
        let symbol = match attr_of(node, "symbol".as_bytes()) {
            Some(s) => s.value.clone(),
            None => {
                diags.push(Diagnostic::MissingSymbol { at: node.start });
                proof {
                    assert(diags_view(diags@) =~= diags_view(old(diags)@) + controllable_diags(
                        nv,
                    ));
                    assert(diags@.take(old(diags)@.len() as int) =~= old(diags)@);
                }
                return ;
            },
        };
        self.set_symbol(parsed, symbol);
        self.parameters.push(
            (parsed, ByteRange { start: index_attr.start, end: index_attr.end }),
        );
        assert(diags_view(diags@) =~= diags_view(old(diags)@) + controllable_diags(nv));
    }

    /// Replaces the symbol associated with `idx`, or adds the
    /// association: the latest one seen wins.
    fn set_symbol(&mut self, idx: u32, symbol: Vec<u8>)
        ensures
            final(self).uri@ == old(self).uri@,
            final(self).parameters@ == old(self).parameters@,
            symbols_view(final(self).symbols@) == set_symbol_spec(
                symbols_view(old(self).symbols@),
                idx,
                symbol@,
            ),
    {
        let ghost sv = symbols_view(self.symbols@);
        let mut i: usize = 0;
        assert(sv.len() == self.symbols@.len());
        while i < self.symbols.len()
            invariant
                0 <= i <= self.symbols@.len(),
                self.uri@ == old(self).uri@,
                self.parameters@ == old(self).parameters@,
                self.symbols@ == old(self).symbols@,
                sv == symbols_view(self.symbols@),
                sv.len() == self.symbols@.len(),
                forall|j: int| 0 <= j < i ==> sv[j].0 != idx,
            decreases self.symbols@.len() - i,
    {
            assert(sv[i as int] == (self.symbols@[i as int].0, self.symbols@[i as int].1@));
            if self.symbols[i].0 == idx {
                self.symbols[i] = (idx, symbol);
                proof {
                    lemma_sym_pos_spec(sv, idx);
                    assert(sym_pos(sv, idx) == i as int);
                    assert(symbols_view(self.symbols@) =~= sv.update(i as int, (idx, symbol@)));
                }
                return ;
            }
            i += 1;
        }
        proof {
            lemma_sym_pos_spec(sv, idx);
        }
        self.symbols.push((idx, symbol));
        assert(symbols_view(self.symbols@) =~= sv.push((idx, symbol@)));
    }

    /// The element-local walk from node `c`: reads `c` as an occurrence
    /// when its tag carries one, else walks its children.
    fn visit(&mut self, tree: &XmlTree, c: usize, diags: &mut Vec<Diagnostic>)
        requires
            c < tree.nodes@.len(),
        ensures
            final(self).uri@ == old(self).uri@,
            ({
                let st = walk_state(
                    tree_view(tree),
                    c as int,
                    (symbols_view(old(self).symbols@), old(self).parameters@),
                );
                symbols_view(final(self).symbols@) == st.0 && final(self).parameters@ == st.1
            }),
            diags_view(final(diags)@) == diags_view(old(diags)@) + walk_diags(
                tree_view(tree),
                c as int,
            ),
            old(diags)@.is_prefix_of(final(diags)@),
        decreases tree.nodes@.len() - c, 1int, 0int,
    {
        let node = &tree.nodes[c];
        proof {
            assert(tree_view(tree)[c as int] == node_view(tree.nodes@[c as int]));
        }
        if bytes_eq(node.tag.as_slice(), "AutomationList".as_bytes()) {
            self.on_automation_list(node, diags);
        } else if bytes_eq(node.tag.as_slice(), "Controllable".as_bytes()) {
            self.on_controllable(node, diags);
        } else {
            self.visit_children(tree, c, 0, diags);
        }
    }

    /// The element-local walk over node `c`'s children from position
    /// `k`, in document order.
    fn visit_children(&mut self, tree: &XmlTree, c: usize, k: usize, diags: &mut Vec<Diagnostic>)
        requires
            c < tree.nodes@.len(),
            k <= tree.nodes@[c as int].children@.len(),
        ensures
            final(self).uri@ == old(self).uri@,
            ({
                let st = walk_children_state(
                    tree_view(tree),
                    c as int,
                    k as int,
                    (symbols_view(old(self).symbols@), old(self).parameters@),
                );
                symbols_view(final(self).symbols@) == st.0 && final(self).parameters@ == st.1
            }),
            diags_view(final(diags)@) == diags_view(old(diags)@) + walk_children_diags(
                tree_view(tree),
                c as int,
                k as int,
            ),
            old(diags)@.is_prefix_of(final(diags)@),
        decreases tree.nodes@.len() - c, 0int, tree.nodes@[c as int].children@.len() - k,
    {
        let ghost tv = tree_view(tree);
        proof {
            assert(tv[c as int] == node_view(tree.nodes@[c as int]));
            assert(tv.len() == tree.nodes@.len());
        }
        if k >= tree.nodes[c].children.len() {
            assert(diags_view(diags@) =~= diags_view(old(diags)@) + walk_children_diags(
                tv,
                c as int,
                k as int,
            ));
            return ;
        }
        let ch = tree.nodes[c].children[k];
        proof {
            assert(tv[c as int].2[k as int] == ch as int);
        }
        let ghost d0 = diags@;
        if c < ch && ch < tree.nodes.len() {
            self.visit(tree, ch, diags);
        }
        let ghost d1 = diags@;
        self.visit_children(tree, c, k + 1, diags);
        proof {
            lemma_prefix_trans(old(diags)@, d1, diags@);
            assert(diags_view(diags@) =~= diags_view(old(diags)@) + walk_children_diags(
                tv,
                c as int,
                k as int,
            ));
        }
    }

    /// Reads one candidate element: an element whose `type` is not
    /// `lv2` is no reference element; one without its `unique-id`
    /// identity is skipped with a diagnostic; otherwise the element's
    /// occurrences are collected by the element-local walk.  Exactly
    /// `parse_state` and `parse_diags` of the node.
    pub fn parse(tree: &XmlTree, c: usize, diags: &mut Vec<Diagnostic>) -> (r: Option<Processor>)
        requires
            c < tree.nodes@.len(),
        ensures
            diags_view(final(diags)@) == diags_view(old(diags)@) + parse_diags(
                tree_view(tree),
                c as int,
            ),
            old(diags)@.is_prefix_of(final(diags)@),
            match r {
                Some(p) => parse_state(tree_view(tree), c as int) matches Some(q) && p.uri@ == q.0
                    && symbols_view(p.symbols@) == q.1 && p.parameters@ == q.2,
                None => parse_state(tree_view(tree), c as int) is None,
            },
    {
        let ghost tv = tree_view(tree);
        let node = &tree.nodes[c];
        proof {
            assert(tv[c as int] == node_view(tree.nodes@[c as int]));
        }
        let type_ok = match attr_of(node, "type".as_bytes()) {
            Some(a) => bytes_eq(a.value.as_slice(), "lv2".as_bytes()),
            None => false,
        };
        if !type_ok {
            assert(!is_reference(tv[c as int]));
            assert(diags_view(diags@) =~= diags_view(old(diags)@) + parse_diags(tv, c as int));
            return None;
        }
        let uri = match attr_of(node, "unique-id".as_bytes()) {
            Some(a) => a.value.clone(),
            None => {
                diags.push(Diagnostic::MissingUri { at: node.start });
                proof {
                    assert(diags_view(diags@) =~= diags_view(old(diags)@) + parse_diags(
                        tv,
                        c as int,
                    ));
                    assert(diags@.take(old(diags)@.len() as int) =~= old(diags)@);
                }
                return None;
            },
        };
        let mut this = Processor { uri, symbols: Vec::new(), parameters: Vec::new() };
        proof {
            assert(symbols_view(this.symbols@) =~= Seq::<(u32, Seq<u8>)>::empty());
        }
        this.visit_children(tree, c, 0, diags);
        Some(this)
    }
}

} // verus!
