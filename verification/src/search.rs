use vstd::prelude::*;
use crate::text::{char_is_alphanumeric, char_len_utf8, char_utf8_len, is_alphanumeric_char, lemma_encode_utf8_concat, lemma_utf8_len_prefix, lemma_utf8_len_push, utf8_len};

verus! {

/// 2^64: every byte length of a string in memory is below it.
pub open spec fn pow64() -> int {
    0x1_0000_0000_0000_0000
}

// ---------------------------------------------------------------------------
// Searchable fields and the occurrences of a term in them
// ---------------------------------------------------------------------------

/// One searchable field of a command, already lowercased.
pub struct SearchField {
    /// The lowercased text, character by character.
    pub text: Vec<char>,
    /// Number of bytes of `text` in UTF-8.
    pub byte_len: usize,
    /// How much less relevant a match in this field is (0 for the name).
    pub field_penalty: u128,
    /// Whether this field is the title of the submenu a result was promoted from.
    pub is_parent: bool,
}

/// What the ranking reads of a field.
pub struct FieldSpec {
    pub text: Seq<char>,
    pub penalty: int,
    pub is_parent: bool,
}

impl SearchField {
    pub open spec fn spec(&self) -> FieldSpec {
        FieldSpec { text: self.text@, penalty: self.field_penalty as int, is_parent: self.is_parent }
    }

    pub open spec fn wf(&self) -> bool {
        &&& self.byte_len == utf8_len(self.text@)
        &&& self.field_penalty <= 2
    }
}

pub open spec fn fields_spec(fs: Seq<SearchField>) -> Seq<FieldSpec> {
    fs.map_values(|f: SearchField| f.spec())
}

pub open spec fn fields_wf(fs: Seq<SearchField>) -> bool {
    forall|k: int| 0 <= k < fs.len() ==> #[trigger] fs[k].wf()
}

/// One lowercased query term.
pub struct SearchTerm {
    pub chars: Vec<char>,
    /// Number of bytes of `chars` in UTF-8.
    pub byte_len: usize,
}

impl SearchTerm {
    pub open spec fn wf(&self) -> bool {
        self.byte_len == utf8_len(self.chars@)
    }
}

pub open spec fn terms_spec(ts: Seq<SearchTerm>) -> Seq<Seq<char>> {
    ts.map_values(|t: SearchTerm| t.chars@)
}

pub open spec fn terms_wf(ts: Seq<SearchTerm>) -> bool {
    forall|k: int| 0 <= k < ts.len() ==> #[trigger] ts[k].wf()
}

/// One match of a term: byte positions in the fields laid end to end with one
/// separator byte between fields, and what the match costs.
pub struct Occ {
    pub start: int,
    pub end: int,
    pub boundary: int,
    pub penalty: int,
    pub is_parent: bool,
}

#[derive(Clone, Copy)]
pub struct SearchOccurrence {
    pub start: u128,
    pub end: u128,
    pub boundary_penalty: u128,
    pub field_penalty: u128,
    pub is_parent: bool,
}

impl View for SearchOccurrence {
    type V = Occ;

    open spec fn view(&self) -> Occ {
        Occ {
            start: self.start as int,
            end: self.end as int,
            boundary: self.boundary_penalty as int,
            penalty: self.field_penalty as int,
            is_parent: self.is_parent,
        }
    }
}

pub open spec fn occ_sane(o: Occ) -> bool {
    &&& 0 <= o.start <= o.end
    &&& 0 <= o.boundary <= 2
    &&& 0 <= o.penalty <= 2
}

pub open spec fn occ_view(s: Seq<SearchOccurrence>) -> Seq<Occ> {
    s.map_values(|o: SearchOccurrence| o@)
}

/// Byte position at which field `k` starts.
pub open spec fn field_offset(fs: Seq<FieldSpec>, k: int) -> int
    decreases k,
{
    if k <= 0 {
        0
    } else {
        field_offset(fs, k - 1) + utf8_len(fs[k - 1].text) + 1
    }
}

/// Character positions of the matches of `term` in `text` at or after `i`,
/// scanning left to right and skipping past each match, so that matches do
/// not overlap (`str::match_indices`). The empty term matches at every position.
pub open spec fn match_positions_from(text: Seq<char>, term: Seq<char>, i: int) -> Seq<int>
    decreases text.len() + 1 - i,
{
    if i < 0 || i + term.len() > text.len() {
        seq![]
    } else if text.subrange(i, i + term.len()) == term {
        seq![i] + match_positions_from(
            text,
            term,
            i + if term.len() == 0 {
                1
            } else {
                term.len() as int
            },
        )
    } else {
        match_positions_from(text, term, i + 1)
    }
}

/// 1 for each end of `text[a..b]` that sits inside a word (next to an
/// alphanumeric character). An end outside the text counts as a word
/// boundary.
pub open spec fn boundary_spec(text: Seq<char>, a: int, b: int) -> int {
    (if 0 < a <= text.len() && is_alphanumeric_char(text[a - 1]) {
        1int
    } else {
        0int
    }) + (if 0 <= b < text.len() && is_alphanumeric_char(text[b]) {
        1int
    } else {
        0int
    })
}

/// The occurrence of `term` at character position `p` of field `k`.
pub open spec fn occ_at(fs: Seq<FieldSpec>, k: int, term: Seq<char>, p: int) -> Occ {
    let f = fs[k];
    let s = field_offset(fs, k) + utf8_len(f.text.take(p));
    Occ {
        start: s,
        end: s + utf8_len(term),
        boundary: boundary_spec(f.text, p, p + term.len()),
        penalty: f.penalty,
        is_parent: f.is_parent,
    }
}

pub open spec fn field_occs(fs: Seq<FieldSpec>, k: int, term: Seq<char>) -> Seq<Occ> {
    match_positions_from(fs[k].text, term, 0).map_values(|p: int| occ_at(fs, k, term, p))
}

/// Occurrences of `term` in the first `k` fields, field by field.
pub open spec fn occs_upto(fs: Seq<FieldSpec>, term: Seq<char>, k: int) -> Seq<Occ>
    decreases k,
{
    if k <= 0 {
        seq![]
    } else {
        occs_upto(fs, term, k - 1) + field_occs(fs, k - 1, term)
    }
}

/// All occurrences of `term` in the fields.
pub open spec fn term_occs(fs: Seq<FieldSpec>, term: Seq<char>) -> Seq<Occ> {
    occs_upto(fs, term, fs.len() as int)
}

/// Whether `term` occurs in `text` starting at character `i`.
pub fn matches_at(text: &Vec<char>, term: &Vec<char>, i: usize) -> (r: bool)
    requires
        i + term@.len() <= text@.len(),
    ensures
        r == (text@.subrange(i as int, i + term@.len()) == term@),
{
    let m = term.len();
    let n = text.len();
    let mut j: usize = 0;
    while j < m
        invariant
            j <= m,
            m == term@.len(),
            n == text@.len(),
            i + m <= text@.len(),
            forall|q: int| 0 <= q < j ==> text@[i + q] == term@[q],
        decreases m - j,
    {
        if text[i + j] != term[j] {
            assert(text@.subrange(i as int, i + m)[j as int] != term@[j as int]);
            return false;
        }
        j += 1;
    }
    assert(text@.subrange(i as int, i + m) =~= term@);
    true
}

/// Penalty for a match `text[start..end]` (character positions) that starts
/// or ends inside a word. A position outside the text counts as a word
/// boundary, so any pair of positions is accepted.
pub fn boundary_penalty(text: &Vec<char>, start: usize, end: usize) -> (r: u128)
    ensures
        r == boundary_spec(text@, start as int, end as int),
        r <= 2,
{
    let starts_word = if start == 0 || start > text.len() {
        true
    } else {
        !char_is_alphanumeric(text[start - 1])
    };
    let ends_word = if end >= text.len() {
        true
    } else {
        !char_is_alphanumeric(text[end])
    };
    (if starts_word {
        0
    } else {
        1
    }) + (if ends_word {
        0
    } else {
        1
    })
}

proof fn lemma_take_extend(s: Seq<char>, i: int, m: int)
    requires
        0 <= i,
        0 <= m,
        i + m <= s.len(),
    ensures
        utf8_len(s.take(i + m)) == utf8_len(s.take(i)) + utf8_len(s.subrange(i, i + m)),
        utf8_len(s.take(i + m)) <= utf8_len(s),
{
    assert(s.take(i + m) =~= s.take(i) + s.subrange(i, i + m));
    lemma_encode_utf8_concat(s.take(i), s.subrange(i, i + m));
    lemma_utf8_len_prefix(s, i + m);
}

proof fn lemma_take_one(s: Seq<char>, i: int)
    requires
        0 <= i < s.len(),
    ensures
        utf8_len(s.take(i + 1)) == utf8_len(s.take(i)) + char_utf8_len(s[i]),
        utf8_len(s.take(i + 1)) <= utf8_len(s),
{
    assert(s.take(i + 1) =~= s.take(i).push(s[i]));
    lemma_utf8_len_push(s.take(i), s[i]);
    lemma_utf8_len_prefix(s, i + 1);
}

proof fn lemma_occ_sane(fs: Seq<FieldSpec>, k: int, term: Seq<char>, p: int)
    requires
        0 <= k < fs.len(),
        0 <= fs[k].penalty <= 2,
    ensures
        field_offset(fs, k) >= 0,
        occ_sane(occ_at(fs, k, term, p)),
    decreases k,
{
    lemma_field_offset_nonneg(fs, k);
}

proof fn lemma_field_offset_nonneg(fs: Seq<FieldSpec>, k: int)
    ensures
        field_offset(fs, k) >= 0,
    decreases k,
{
    if k > 0 {
        lemma_field_offset_nonneg(fs, k - 1);
    }
}

/// Every occurrence of `term` in the fields: positions in bytes of the
/// fields laid end to end with one separator between them.
pub fn term_occurrences(fields: &Vec<SearchField>, term: &SearchTerm) -> (r: Vec<SearchOccurrence>)
    requires
        fields_wf(fields@),
        term.wf(),
    ensures
        occ_view(r@) == term_occs(fields_spec(fields@), term.chars@),
        forall|i: int| 0 <= i < r@.len() ==> occ_sane(#[trigger] r@[i]@),
{
    let ghost fs = fields_spec(fields@);
    let ghost t = term.chars@;
    let mut out: Vec<SearchOccurrence> = Vec::new();
    let mut field_offset_b: u128 = 0;
    let nf = fields.len();
    let m = term.chars.len();
    let mut k: usize = 0;
    while k < nf
        invariant
            k <= nf,
            nf == fields@.len(),
            m == t.len(),
            fs == fields_spec(fields@),
            t == term.chars@,
            fields_wf(fields@),
            term.wf(),
            field_offset_b == field_offset(fs, k as int),
            field_offset_b <= k * pow64(),
            occ_view(out@) == occs_upto(fs, t, k as int),
            forall|i: int| 0 <= i < out@.len() ==> occ_sane(#[trigger] out@[i]@),
        decreases nf - k,
    {
        let field = &fields[k];
        assert(field.wf());
        let text = &field.text;
        let n = text.len();
        let ghost tx = text@;
        assert(fs[k as int].text == tx);
        let mut i: usize = 0;
        let mut local: usize = 0;
        let mut done = false;
        let ghost found: Seq<int> = seq![];
        let ghost base = occ_view(out@);
        proof {
            assert(local == utf8_len(tx.take(0))) by {
                assert(tx.take(0) =~= Seq::<char>::empty());
            }
            assert(found + match_positions_from(tx, t, 0) =~= match_positions_from(tx, t, 0));
            assert(base + found.map_values(|p: int| occ_at(fs, k as int, t, p)) =~= base);
            lemma_field_offset_nonneg(fs, k as int);
        }
        while !done && m <= n && i <= n - m
            invariant
                i <= n,
                n == tx.len(),
                tx == text@,
                *field == fields@[k as int],
                field.wf(),
                k < nf,
                nf == fields@.len(),
                m == t.len(),
                t == term.chars@,
                term.wf(),
                fs == fields_spec(fields@),
                fs[k as int].text == tx,
                field_offset_b == field_offset(fs, k as int),
                field_offset_b <= k * pow64(),
                field_offset(fs, k as int) >= 0,
                local == utf8_len(tx.take(i as int)),
                match_positions_from(tx, t, 0) == found + (if done {
                    seq![]
                } else {
                    match_positions_from(tx, t, i as int)
                }),
                occ_view(out@) == base + found.map_values(|p: int| occ_at(fs, k as int, t, p)),
                base == occs_upto(fs, t, k as int),
                forall|q: int| 0 <= q < out@.len() ==> occ_sane(#[trigger] out@[q]@),
            decreases n - i + (if done {
                0int
            } else {
                1int
            }),
        {
            let ghost old_out = out@;
            if matches_at(text, &term.chars, i) {
                proof {
                    lemma_take_extend(tx, i as int, m as int);
                    assert(tx.subrange(i as int, i + m) == t);
                    lemma_occ_sane(fs, k as int, t, i as int);
                }
                let local_end = local + term.byte_len;
                let bp = boundary_penalty(text, i, i + m);
                let occ = SearchOccurrence {
                    start: field_offset_b + local as u128,
                    end: field_offset_b + local_end as u128,
                    boundary_penalty: bp,
                    field_penalty: field.field_penalty,
                    is_parent: field.is_parent,
                };
                proof {
                    assert(occ@ == occ_at(fs, k as int, t, i as int));
                }
                out.push(occ);
                proof {
                    let step: int = if m == 0 {
                        1
                    } else {
                        m as int
                    };
                    assert(match_positions_from(tx, t, i as int) == seq![i as int]
                        + match_positions_from(tx, t, i + step));
                    assert(found.push(i as int) + match_positions_from(tx, t, i + step) =~= found
                        + match_positions_from(tx, t, i as int));
                    found = found.push(i as int);
                    assert(occ_view(out@) =~= occ_view(old_out).push(occ@));
                    assert(found.map_values(|p: int| occ_at(fs, k as int, t, p)) =~= found.drop_last().map_values(
                        |p: int| occ_at(fs, k as int, t, p),
                    ).push(occ_at(fs, k as int, t, i as int)));
                }
                if m == 0 {
                    if i < n {
                        proof {
                            lemma_take_one(tx, i as int);
                        }
                        local = local + char_len_utf8(text[i]);
                        i = i + 1;
                    } else {
                        proof {
                            assert(match_positions_from(tx, t, i + 1) =~= Seq::<int>::empty());
                            assert(found + Seq::<int>::empty() =~= found);
                        }
                        done = true;
                    }
                } else {
                    local = local_end;
                    i = i + m;
                }
            } else {
                proof {
                    if m == 0 {
                        assert(tx.subrange(i as int, i as int) =~= t);
                    }
                    lemma_take_one(tx, i as int);
                    assert(match_positions_from(tx, t, i as int) == match_positions_from(
                        tx,
                        t,
                        i + 1,
                    ));
                }
                local = local + char_len_utf8(text[i]);
                i = i + 1;
            }
        }
        proof {
            if !done {
                assert(match_positions_from(tx, t, i as int) =~= Seq::<int>::empty());
            }
            assert(found =~= match_positions_from(tx, t, 0));
            assert(occs_upto(fs, t, k + 1) == occs_upto(fs, t, k as int) + field_occs(
                fs,
                k as int,
                t,
            ));
            assert(field_occs(fs, k as int, t) =~= found.map_values(
                |p: int| occ_at(fs, k as int, t, p),
            ));
        }
        field_offset_b = field_offset_b + field.byte_len as u128 + 1;
        k = k + 1;
    }
    out
}

// ---------------------------------------------------------------------------
// Ordered chains: one occurrence per term, in query order, not overlapping
// ---------------------------------------------------------------------------

/// A ranking key, compared lexicographically: boundary penalty, field
/// penalty, span, first position.
pub struct Key4 {
    pub b: int,
    pub f: int,
    pub span: int,
    pub first: int,
}

pub open spec fn key_lt(x: Key4, y: Key4) -> bool {
    ||| x.b < y.b
    ||| x.b == y.b && x.f < y.f
    ||| x.b == y.b && x.f == y.f && x.span < y.span
    ||| x.b == y.b && x.f == y.f && x.span == y.span && x.first < y.first
}

pub open spec fn key_le(x: Key4, y: Key4) -> bool {
    key_lt(x, y) || x == y
}

pub proof fn lemma_key_le_trans(x: Key4, y: Key4, z: Key4)
    requires
        key_le(x, y),
        key_le(y, z),
    ensures
        key_le(x, z),
{
}

pub proof fn lemma_key_le_antisym(x: Key4, y: Key4)
    requires
        key_le(x, y),
        key_le(y, x),
    ensures
        x == y,
{
}

pub proof fn lemma_key_total(x: Key4, y: Key4)
    ensures
        key_le(x, y) || key_lt(y, x),
{
}

pub open spec fn occs_of(m: Seq<Vec<SearchOccurrence>>) -> Seq<Seq<Occ>> {
    m.map_values(|v: Vec<SearchOccurrence>| occ_view(v@))
}

pub open spec fn all_sane(occs: Seq<Seq<Occ>>) -> bool {
    forall|t: int, i: int| 0 <= t < occs.len() && 0 <= i < occs[t].len() ==> occ_sane(#[trigger] occs[t][i])
}

/// What the search for the best ordered chain needs of an occurrence: it
/// does not end before it starts, and its penalties fit in 64 bits, so that
/// the penalties of a chain through fewer than 2^64 terms fit in a `u128`.
pub open spec fn occ_fits(o: Occ) -> bool {
    &&& 0 <= o.start <= o.end
    &&& 0 <= o.boundary < pow64()
    &&& 0 <= o.penalty < pow64()
}

pub open spec fn all_fit(occs: Seq<Seq<Occ>>) -> bool {
    forall|t: int, i: int| 0 <= t < occs.len() && 0 <= i < occs[t].len() ==> occ_fits(#[trigger] occs[t][i])
}

proof fn lemma_sane_fits(occs: Seq<Seq<Occ>>)
    requires
        all_sane(occs),
    ensures
        all_fit(occs),
{
    assert forall|t: int, i: int| 0 <= t < occs.len() && 0 <= i < occs[t].len() implies occ_fits(#[trigger] occs[t][i]) by {
        assert(occ_sane(occs[t][i]));
    }
}

/// Occurrence `c[t]` of term `t` ends no later than occurrence `c[t + 1]` of
/// term `t + 1` starts.
pub open spec fn link(occs: Seq<Seq<Occ>>, c: Seq<int>, t: int) -> bool {
    occs[t][c[t]].end <= occs[t + 1][c[t + 1]].start
}

/// `c` picks one occurrence for each of the first `c.len()` terms, in order
/// and without overlap.
pub open spec fn chain_ok(occs: Seq<Seq<Occ>>, c: Seq<int>) -> bool {
    &&& 1 <= c.len() <= occs.len()
    &&& forall|t: int| 0 <= t < c.len() ==> 0 <= #[trigger] c[t] < occs[t].len()
    &&& forall|t: int| 0 <= t < c.len() - 1 ==> #[trigger] link(occs, c, t)
}

pub open spec fn chain_b(occs: Seq<Seq<Occ>>, c: Seq<int>) -> int
    decreases c.len(),
{
    if c.len() == 0 {
        0
    } else {
        chain_b(occs, c.drop_last()) + occs[c.len() - 1][c.last()].boundary
    }
}

pub open spec fn chain_f(occs: Seq<Seq<Occ>>, c: Seq<int>) -> int
    decreases c.len(),
{
    if c.len() == 0 {
        0
    } else {
        chain_f(occs, c.drop_last()) + occs[c.len() - 1][c.last()].penalty
    }
}

/// Whether some occurrence of the chain lies outside the promoted submenu title.
pub open spec fn chain_np(occs: Seq<Seq<Occ>>, c: Seq<int>) -> bool
    decreases c.len(),
{
    if c.len() == 0 {
        false
    } else {
        chain_np(occs, c.drop_last()) || !occs[c.len() - 1][c.last()].is_parent
    }
}

pub open spec fn chain_first(occs: Seq<Seq<Occ>>, c: Seq<int>) -> int {
    occs[0][c[0]].start
}

pub open spec fn chain_end(occs: Seq<Seq<Occ>>, c: Seq<int>) -> int {
    occs[c.len() - 1][c.last()].end
}

pub open spec fn chain_key(occs: Seq<Seq<Occ>>, c: Seq<int>) -> Key4 {
    Key4 {
        b: chain_b(occs, c),
        f: chain_f(occs, c),
        span: chain_end(occs, c) - chain_first(occs, c),
        first: chain_first(occs, c),
    }
}

/// A chain through every term; when `require` holds it must also touch a
/// field other than the promoted submenu title.
pub open spec fn full_chain(occs: Seq<Seq<Occ>>, c: Seq<int>, require: bool) -> bool {
    &&& chain_ok(occs, c)
    &&& c.len() == occs.len()
    &&& require ==> chain_np(occs, c)
}

pub open spec fn has_full_chain(occs: Seq<Seq<Occ>>, require: bool) -> bool {
    exists|c: Seq<int>| #[trigger] full_chain(occs, c, require)
}

/// `k` is the least key of a full chain.
pub open spec fn is_min_key(occs: Seq<Seq<Occ>>, require: bool, k: Key4) -> bool {
    &&& exists|c: Seq<int>| #[trigger] full_chain(occs, c, require) && chain_key(occs, c) == k
    &&& forall|c: Seq<int>| #[trigger] full_chain(occs, c, require) ==> key_le(k, chain_key(occs, c))
}

pub open spec fn min_chain_key(occs: Seq<Seq<Occ>>, require: bool) -> Key4 {
    choose|k: Key4| is_min_key(occs, require, k)
}

proof fn lemma_chain_prefix(occs: Seq<Seq<Occ>>, c: Seq<int>)
    requires
        chain_ok(occs, c),
        c.len() >= 2,
    ensures
        chain_ok(occs, c.drop_last()),
        link(occs, c, c.len() - 2),
        chain_first(occs, c.drop_last()) == chain_first(occs, c),
        chain_end(occs, c.drop_last()) == occs[c.len() - 2][c[c.len() - 2]].end,
{
    let p = c.drop_last();
    assert forall|t: int| 0 <= t < p.len() implies 0 <= #[trigger] p[t] < occs[t].len() by {
        assert(p[t] == c[t]);
    }
    assert forall|t: int| 0 <= t < p.len() - 1 implies #[trigger] link(occs, p, t) by {
        assert(p[t] == c[t] && p[t + 1] == c[t + 1]);
        assert(link(occs, c, t));
    }
    assert(link(occs, c, c.len() - 2));
}

proof fn lemma_chain_bounds(occs: Seq<Seq<Occ>>, c: Seq<int>)
    requires
        chain_ok(occs, c),
        all_fit(occs),
    ensures
        0 <= chain_b(occs, c) <= c.len() * 0xffff_ffff_ffff_ffff,
        0 <= chain_f(occs, c) <= c.len() * 0xffff_ffff_ffff_ffff,
        0 <= chain_first(occs, c) <= chain_end(occs, c),
    decreases c.len(),
{
    let n = c.len() - 1;
    assert(0 <= c[n] < occs[n].len());
    assert(occ_fits(occs[n][c[n]]));
    if c.len() == 1 {
        assert(c.drop_last().len() == 0);
        assert(chain_b(occs, c.drop_last()) == 0);
        assert(chain_f(occs, c.drop_last()) == 0);
        assert(0 <= c[0] < occs[0].len());
        assert(occ_fits(occs[0][c[0]]));
    } else {
        assert(0 <= c[n - 1] < occs[n - 1].len());
        lemma_chain_prefix(occs, c);
        lemma_chain_bounds(occs, c.drop_last());
        assert(occ_fits(occs[n - 1][c[n - 1]]));
    }
}

// ---------------------------------------------------------------------------
// The search for the best ordered chain
// ---------------------------------------------------------------------------

/// The best chain found so far through the first terms, ending at one
/// occurrence.
#[derive(Clone, Copy)]
pub struct OrderedState {
    pub first_start: u128,
    pub end: u128,
    pub boundary_penalty: u128,
    pub field_penalty: u128,
    pub has_non_parent: bool,
}

/// The ranking key of a state; the span is 0 when the end lies before the
/// first start.
pub open spec fn state_key(s: OrderedState) -> Key4 {
    Key4 {
        b: s.boundary_penalty as int,
        f: s.field_penalty as int,
        span: if s.end >= s.first_start {
            s.end - s.first_start
        } else {
            0
        },
        first: s.first_start as int,
    }
}

/// `s` records the chain `c`.
pub open spec fn realized_by(occs: Seq<Seq<Occ>>, s: OrderedState, c: Seq<int>) -> bool {
    &&& chain_ok(occs, c)
    &&& s.first_start == chain_first(occs, c)
    &&& s.end == chain_end(occs, c)
    &&& s.boundary_penalty == chain_b(occs, c)
    &&& s.field_penalty == chain_f(occs, c)
    &&& s.has_non_parent == chain_np(occs, c)
}

/// `c` is a chain through terms `0..=t` that ends at occurrence `j` of term
/// `t` and touches a non-title field exactly when `f`.
pub open spec fn ends_at(occs: Seq<Seq<Occ>>, c: Seq<int>, t: int, j: int, f: bool) -> bool {
    &&& chain_ok(occs, c)
    &&& c.len() == t + 1
    &&& c[t] == j
    &&& chain_np(occs, c) == f
}

/// The slot for chains ending at occurrence `j` of term `t` with flag `f`
/// holds the best such chain, or nothing when there is none.
pub open spec fn slot_ok(
    occs: Seq<Seq<Occ>>,
    t: int,
    j: int,
    f: bool,
    slot: Option<OrderedState>,
    w: Seq<int>,
) -> bool {
    match slot {
        Some(s) => {
            &&& realized_by(occs, s, w)
            &&& ends_at(occs, w, t, j, f)
            &&& forall|c: Seq<int>| #[trigger]
                ends_at(occs, c, t, j, f) ==> key_le(state_key(s), chain_key(occs, c))
        },
        None => forall|c: Seq<int>| !#[trigger] ends_at(occs, c, t, j, f),
    }
}

#[derive(Clone, Copy)]
pub struct Slots {
    /// Best chain that touches only the promoted submenu title.
    pub parent_only: Option<OrderedState>,
    /// Best chain that touches some other field.
    pub with_non_parent: Option<OrderedState>,
}

pub open spec fn slot_of(s: Slots, f: bool) -> Option<OrderedState> {
    if f {
        s.with_non_parent
    } else {
        s.parent_only
    }
}

pub open spec fn layer_ok(
    occs: Seq<Seq<Occ>>,
    t: int,
    states: Seq<Slots>,
    w0: Seq<Seq<int>>,
    w1: Seq<Seq<int>>,
) -> bool {
    &&& states.len() == occs[t].len()
    &&& layer_upto(occs, t, states, w0, w1)
}

/// `layer_ok` for the occurrences handled so far.
pub open spec fn layer_upto(
    occs: Seq<Seq<Occ>>,
    t: int,
    states: Seq<Slots>,
    w0: Seq<Seq<int>>,
    w1: Seq<Seq<int>>,
) -> bool {
    &&& w0.len() == states.len()
    &&& w1.len() == states.len()
    &&& forall|j: int|
        0 <= j < states.len() ==> slot_ok(occs, t, j, false, #[trigger] states[j].parent_only, w0[j])
    &&& forall|j: int|
        0 <= j < states.len() ==> slot_ok(occs, t, j, true, #[trigger] states[j].with_non_parent, w1[j])
}

/// The ranking key of a state: penalties, span, then first position.
pub fn ordered_state_key(state: &OrderedState) -> (r: (u128, u128, u128, u128))
    ensures
        r == (state.boundary_penalty, state.field_penalty, state.end.saturating_sub(state.first_start),
        state.first_start),
{
    (state.boundary_penalty, state.field_penalty, state.end.saturating_sub(state.first_start), state.first_start)
}

pub open spec fn tuple_lt(x: (u128, u128, u128, u128), y: (u128, u128, u128, u128)) -> bool {
    ||| x.0 < y.0
    ||| x.0 == y.0 && x.1 < y.1
    ||| x.0 == y.0 && x.1 == y.1 && x.2 < y.2
    ||| x.0 == y.0 && x.1 == y.1 && x.2 == y.2 && x.3 < y.3
}

pub fn tuple_less(x: (u128, u128, u128, u128), y: (u128, u128, u128, u128)) -> (r: bool)
    ensures
        r == tuple_lt(x, y),
{
    x.0 < y.0 || (x.0 == y.0 && (x.1 < y.1 || (x.1 == y.1 && (x.2 < y.2 || (x.2 == y.2 && x.3
        < y.3)))))
}

/// Replace the slot's state by `candidate` when the slot is empty or the
/// candidate ranks strictly better.
pub fn keep_better_state(slot: &mut Option<OrderedState>, candidate: OrderedState)
    ensures
        *final(slot) == (match *old(slot) {
            None => Some(candidate),
            Some(s) => if key_lt(state_key(candidate), state_key(s)) {
                Some(candidate)
            } else {
                Some(s)
            },
        }),
{
    let replace = match slot {
        None => true,
        Some(existing) => tuple_less(ordered_state_key(&candidate), ordered_state_key(existing)),
    };
    if replace {
        *slot = Some(candidate);
    }
}

pub open spec fn ext_key(s: OrderedState, cur: Occ) -> Key4 {
    Key4 {
        b: s.boundary_penalty + cur.boundary,
        f: s.field_penalty + cur.penalty,
        span: cur.end - s.first_start,
        first: s.first_start as int,
    }
}

/// The state in slot `g` of previous occurrence `i` can be extended by
/// occurrence `j` of term `t + 1` into a chain with flag `f`.
pub open spec fn feeds(
    occs: Seq<Seq<Occ>>,
    t: int,
    j: int,
    states: Seq<Slots>,
    i: int,
    g: bool,
    f: bool,
) -> bool {
    &&& slot_of(states[i], g) is Some
    &&& occs[t][i].end <= occs[t + 1][j].start
    &&& (slot_of(states[i], g).unwrap().has_non_parent || !occs[t + 1][j].is_parent) == f
}

/// While the previous occurrences `0..pi` have been tried: the new slot for
/// flag `f` holds a chain ending at `j`, at least as good as every extension
/// tried so far, and is empty only when no extension was possible.
pub open spec fn inner_ok(
    occs: Seq<Seq<Occ>>,
    t: int,
    j: int,
    states: Seq<Slots>,
    pi: int,
    f: bool,
    n: Option<OrderedState>,
    nw: Seq<int>,
) -> bool {
    &&& n is Some ==> realized_by(occs, n.unwrap(), nw) && ends_at(occs, nw, t + 1, j, f)
    &&& forall|i: int, g: bool|
        0 <= i < pi && #[trigger] feeds(occs, t, j, states, i, g, f) ==> n is Some && key_le(
            state_key(n.unwrap()),
            ext_key(slot_of(states[i], g).unwrap(), occs[t + 1][j]),
        )
    &&& n is None ==> forall|i: int, g: bool|
        0 <= i < pi ==> !#[trigger] feeds(occs, t, j, states, i, g, f)
}

pub open spec fn witness_of(w0: Seq<Seq<int>>, w1: Seq<Seq<int>>, g: bool, i: int) -> Seq<int> {
    if g {
        w1[i]
    } else {
        w0[i]
    }
}

proof fn lemma_layer_slot(
    occs: Seq<Seq<Occ>>,
    t: int,
    states: Seq<Slots>,
    w0: Seq<Seq<int>>,
    w1: Seq<Seq<int>>,
    i: int,
    g: bool,
)
    requires
        layer_ok(occs, t, states, w0, w1),
        0 <= i < states.len(),
    ensures
        slot_ok(occs, t, i, g, slot_of(states[i], g), witness_of(w0, w1, g, i)),
{
    if g {
        assert(slot_ok(occs, t, i, true, states[i].with_non_parent, w1[i]));
    } else {
        assert(slot_ok(occs, t, i, false, states[i].parent_only, w0[i]));
    }
}

/// Appending occurrence `j` of term `t + 1` to a chain through `0..=t` that
/// ends where it may.
proof fn lemma_extend_chain(occs: Seq<Seq<Occ>>, w: Seq<int>, t: int, j: int)
    requires
        chain_ok(occs, w),
        w.len() == t + 1,
        t + 1 < occs.len(),
        0 <= j < occs[t + 1].len(),
        occs[t][w[t]].end <= occs[t + 1][j].start,
    ensures
        chain_ok(occs, w.push(j)),
        w.push(j).drop_last() == w,
        chain_b(occs, w.push(j)) == chain_b(occs, w) + occs[t + 1][j].boundary,
        chain_f(occs, w.push(j)) == chain_f(occs, w) + occs[t + 1][j].penalty,
        chain_np(occs, w.push(j)) == (chain_np(occs, w) || !occs[t + 1][j].is_parent),
        chain_first(occs, w.push(j)) == chain_first(occs, w),
        chain_end(occs, w.push(j)) == occs[t + 1][j].end,
        w.push(j)[t + 1] == j,
{
    let c = w.push(j);
    assert(c.drop_last() =~= w);
    assert forall|u: int| 0 <= u < c.len() implies 0 <= #[trigger] c[u] < occs[u].len() by {
        if u < w.len() {
            assert(c[u] == w[u]);
        }
    }
    assert forall|u: int| 0 <= u < c.len() - 1 implies #[trigger] link(occs, c, u) by {
        if u < t {
            assert(link(occs, w, u));
            assert(c[u] == w[u] && c[u + 1] == w[u + 1]);
        } else {
            assert(c[u] == w[t] && c[u + 1] == j);
        }
    }
}

/// After every previous occurrence has been tried, the new slot is exactly
/// what `slot_ok` asks of layer `t + 1`.
proof fn lemma_close_slot(
    occs: Seq<Seq<Occ>>,
    t: int,
    j: int,
    states: Seq<Slots>,
    w0: Seq<Seq<int>>,
    w1: Seq<Seq<int>>,
    f: bool,
    n: Option<OrderedState>,
    nw: Seq<int>,
)
    requires
        0 <= t,
        t + 1 < occs.len(),
        0 <= j < occs[t + 1].len(),
        all_fit(occs),
        layer_ok(occs, t, states, w0, w1),
        inner_ok(occs, t, j, states, occs[t].len() as int, f, n, nw),
    ensures
        slot_ok(occs, t + 1, j, f, n, nw),
{
    let cur = occs[t + 1][j];
    assert forall|c: Seq<int>| #[trigger] ends_at(occs, c, t + 1, j, f) implies n is Some
        && key_le(state_key(n.unwrap()), chain_key(occs, c)) by {
        lemma_chain_prefix(occs, c);
        let p = c.drop_last();
        let i = c[t];
        let g = chain_np(occs, p);
        assert(p[t] == i);
        assert(0 <= i < occs[t].len());
        assert(ends_at(occs, p, t, i, g));
        lemma_layer_slot(occs, t, states, w0, w1, i, g);
        let w = witness_of(w0, w1, g, i);
        assert(slot_of(states[i], g) is Some);
        let ps = slot_of(states[i], g).unwrap();
        assert(key_le(state_key(ps), chain_key(occs, p)));
        assert(c[t + 1] == j);
        assert(link(occs, c, t));
        assert(c.last() == j);
        assert(chain_np(occs, c) == (g || !cur.is_parent));
        assert(ps.has_non_parent == g);
        assert(feeds(occs, t, j, states, i, g, f));
        assert(ps.end == occs[t][w[t]].end);
        assert(w[t] == i);
        assert(key_le(ext_key(ps, cur), chain_key(occs, c)));
        lemma_key_le_trans(state_key(n.unwrap()), ext_key(ps, cur), chain_key(occs, c));
    }
    if n is None {
        assert forall|c: Seq<int>| !#[trigger] ends_at(occs, c, t + 1, j, f) by {
            if ends_at(occs, c, t + 1, j, f) {
                assert(n is Some);
            }
        }
    }
}

/// Progress while the slots `0..g` of previous occurrence `pi` have been
/// tried: `on` is the new slot before occurrence `pi`, `n` after.
pub open spec fn step_ok(
    occs: Seq<Seq<Occ>>,
    t: int,
    j: int,
    states: Seq<Slots>,
    pi: int,
    g: int,
    f: bool,
    n: Option<OrderedState>,
    nw: Seq<int>,
    on: Option<OrderedState>,
) -> bool {
    &&& n is Some ==> realized_by(occs, n.unwrap(), nw) && ends_at(occs, nw, t + 1, j, f)
    &&& n is Some ==> n.unwrap().first_start <= n.unwrap().end
    &&& on is Some ==> n is Some && key_le(state_key(n.unwrap()), state_key(on.unwrap()))
    &&& forall|gg: bool|
        (if gg {
            1int
        } else {
            0int
        }) < g && #[trigger] feeds(occs, t, j, states, pi, gg, f) ==> n is Some && key_le(
            state_key(n.unwrap()),
            ext_key(slot_of(states[pi], gg).unwrap(), occs[t + 1][j]),
        )
    &&& n is None ==> on is None && forall|gg: bool|
        (if gg {
            1int
        } else {
            0int
        }) < g ==> !#[trigger] feeds(occs, t, j, states, pi, gg, f)
}

proof fn lemma_advance(
    occs: Seq<Seq<Occ>>,
    t: int,
    j: int,
    states: Seq<Slots>,
    pi: int,
    f: bool,
    n: Option<OrderedState>,
    nw: Seq<int>,
    on: Option<OrderedState>,
    onw: Seq<int>,
)
    requires
        0 <= pi,
        inner_ok(occs, t, j, states, pi, f, on, onw),
        step_ok(occs, t, j, states, pi, 2, f, n, nw, on) || (n == on && nw == onw
            && occs[t][pi].end > occs[t + 1][j].start),
    ensures
        inner_ok(occs, t, j, states, pi + 1, f, n, nw),
{
    assert forall|i: int, gg: bool|
        0 <= i < pi + 1 && #[trigger] feeds(occs, t, j, states, i, gg, f) implies n is Some
        && key_le(state_key(n.unwrap()), ext_key(slot_of(states[i], gg).unwrap(), occs[t + 1][j])) by {
        if i < pi && n != on {
            lemma_key_le_trans(
                state_key(n.unwrap()),
                state_key(on.unwrap()),
                ext_key(slot_of(states[i], gg).unwrap(), occs[t + 1][j]),
            );
        }
    }
    if n is None {
        assert forall|i: int, gg: bool| 0 <= i < pi + 1 implies !#[trigger] feeds(
            occs,
            t,
            j,
            states,
            i,
            gg,
            f,
        ) by {
            if i == pi && feeds(occs, t, j, states, i, gg, f) {
                assert(n is Some);
            }
        }
    }
}

/// One more slot of previous occurrence `pi` tried against flag `f`.
proof fn lemma_step(
    occs: Seq<Seq<Occ>>,
    t: int,
    j: int,
    states: Seq<Slots>,
    pi: int,
    g: int,
    gb: bool,
    f: bool,
    before: Option<OrderedState>,
    bw: Seq<int>,
    after: Option<OrderedState>,
    aw: Seq<int>,
    on: Option<OrderedState>,
)
    requires
        gb == (g == 1),
        0 <= g < 2,
        step_ok(occs, t, j, states, pi, g, f, before, bw, on),
        after is Some,
        realized_by(occs, after.unwrap(), aw),
        ends_at(occs, aw, t + 1, j, f),
        after.unwrap().first_start <= after.unwrap().end,
        before is Some ==> key_le(state_key(after.unwrap()), state_key(before.unwrap())),
        feeds(occs, t, j, states, pi, gb, f),
        key_le(state_key(after.unwrap()), ext_key(slot_of(states[pi], gb).unwrap(), occs[t + 1][j])),
    ensures
        step_ok(occs, t, j, states, pi, g + 1, f, after, aw, on),
{
    if on is Some {
        lemma_key_le_trans(state_key(after.unwrap()), state_key(before.unwrap()), state_key(on.unwrap()));
    }
    assert forall|gg: bool|
        (if gg {
            1int
        } else {
            0int
        }) < g + 1 && #[trigger] feeds(occs, t, j, states, pi, gg, f) implies key_le(
        state_key(after.unwrap()),
        ext_key(slot_of(states[pi], gg).unwrap(), occs[t + 1][j]),
    ) by {
        if gg != gb {
            lemma_key_le_trans(
                state_key(after.unwrap()),
                state_key(before.unwrap()),
                ext_key(slot_of(states[pi], gg).unwrap(), occs[t + 1][j]),
            );
        }
    }
}

/// A slot that is not fed by slot `g` of occurrence `pi` stays as it was.
proof fn lemma_skip(
    occs: Seq<Seq<Occ>>,
    t: int,
    j: int,
    states: Seq<Slots>,
    pi: int,
    g: int,
    gb: bool,
    f: bool,
    n: Option<OrderedState>,
    nw: Seq<int>,
    on: Option<OrderedState>,
)
    requires
        gb == (g == 1),
        0 <= g < 2,
        step_ok(occs, t, j, states, pi, g, f, n, nw, on),
        !feeds(occs, t, j, states, pi, gb, f),
    ensures
        step_ok(occs, t, j, states, pi, g + 1, f, n, nw, on),
{
}

/// The best chains through terms `0..=t + 1` that end at occurrence `j` of
/// term `t + 1`, one per flag.
fn best_ending_at(
    matches: &Vec<Vec<SearchOccurrence>>,
    t: usize,
    states: &Vec<Slots>,
    Ghost(w0): Ghost<Seq<Seq<int>>>,
    Ghost(w1): Ghost<Seq<Seq<int>>>,
    j: usize,
) -> (r: (Slots, Ghost<Seq<int>>, Ghost<Seq<int>>))
    requires
        t + 1 < matches@.len(),
        j < matches@[t + 1]@.len(),
        all_fit(occs_of(matches@)),
        layer_ok(occs_of(matches@), t as int, states@, w0, w1),
    ensures
        slot_ok(occs_of(matches@), t + 1, j as int, false, r.0.parent_only, r.1@),
        slot_ok(occs_of(matches@), t + 1, j as int, true, r.0.with_non_parent, r.2@),
{
    let ghost occs = occs_of(matches@);
    let nm = matches.len();
    let prev_matches = &matches[t];
    let cur = matches[t + 1][j];
    assert(occs[t as int] == occ_view(prev_matches@));
    assert(cur@ == occs[t + 1][j as int]);
    assert(occ_fits(cur@));
    let mut n0: Option<OrderedState> = None;
    let mut n1: Option<OrderedState> = None;
    let ghost mut nw0: Seq<int> = seq![];
    let ghost mut nw1: Seq<int> = seq![];
    let np = prev_matches.len();
    let mut pi: usize = 0;
    while pi < np
        invariant
            pi <= np,
            np == prev_matches@.len(),
            occs == occs_of(matches@),
            *prev_matches == matches@[t as int],
            occs[t as int] == occ_view(prev_matches@),
            cur@ == occs[t + 1][j as int],
            occ_fits(cur@),
            t + 1 < matches@.len(),
            nm == matches@.len(),
            j < matches@[t + 1]@.len(),
            all_fit(occs),
            layer_ok(occs, t as int, states@, w0, w1),
            inner_ok(occs, t as int, j as int, states@, pi as int, false, n0, nw0),
            inner_ok(occs, t as int, j as int, states@, pi as int, true, n1, nw1),
            n0 is Some ==> n0.unwrap().first_start <= n0.unwrap().end,
            n1 is Some ==> n1.unwrap().first_start <= n1.unwrap().end,
        decreases np - pi,
    {
        let prev = prev_matches[pi];
        assert(prev@ == occs[t as int][pi as int]);
        let ghost old_n0 = n0;
        let ghost old_n1 = n1;
        let ghost old_nw0 = nw0;
        let ghost old_nw1 = nw1;
        if prev.end <= cur.start {
            let sl = states[pi];
            let mut g: usize = 0;
            while g < 2
                invariant
                    g <= 2,
                    sl == states@[pi as int],
                    prev@ == occs[t as int][pi as int],
                    prev.end <= cur.start,
                    pi < np,
                    np == prev_matches@.len(),
                    occs == occs_of(matches@),
                    occs[t as int] == occ_view(prev_matches@),
                    cur@ == occs[t + 1][j as int],
                    occ_fits(cur@),
                    t + 1 < matches@.len(),
                    nm == matches@.len(),
                    j < matches@[t + 1]@.len(),
                    all_fit(occs),
                    layer_ok(occs, t as int, states@, w0, w1),
                    step_ok(occs, t as int, j as int, states@, pi as int, g as int, false, n0, nw0, old_n0),
                    step_ok(occs, t as int, j as int, states@, pi as int, g as int, true, n1, nw1, old_n1),
                decreases 2 - g,
            {
                let ghost gb: bool = g == 1;
                let slot = if g == 0 {
                    sl.parent_only
                } else {
                    sl.with_non_parent
                };
                assert(slot == slot_of(states@[pi as int], gb));
                if let Some(ps) = slot {
                    proof {
                        lemma_layer_slot(occs, t as int, states@, w0, w1, pi as int, gb);
                        lemma_chain_bounds(occs, witness_of(w0, w1, gb, pi as int));
                        assert(witness_of(w0, w1, gb, pi as int)[t as int] == pi);
                        lemma_extend_chain(occs, witness_of(w0, w1, gb, pi as int), t as int, j as int);
                    }
                    let candidate = OrderedState {
                        first_start: ps.first_start,
                        end: cur.end,
                        boundary_penalty: ps.boundary_penalty + cur.boundary_penalty,
                        field_penalty: ps.field_penalty + cur.field_penalty,
                        has_non_parent: ps.has_non_parent || !cur.is_parent,
                    };
                    let ghost cw = witness_of(w0, w1, gb, pi as int).push(j as int);
                    assert(state_key(candidate) == ext_key(ps, occs[t + 1][j as int]));
                    assert(realized_by(occs, candidate, cw));
                    assert(ends_at(occs, cw, t + 1, j as int, candidate.has_non_parent));
                    if candidate.has_non_parent {
                        let ghost before = n1;
                        let ghost bw = nw1;
                        keep_better_state(&mut n1, candidate);
                        proof {
                            if n1 == Some(candidate) {
                                nw1 = cw;
                            }
                            if before is Some {
                                lemma_key_total(state_key(candidate), state_key(before.unwrap()));
                            }
                            assert(feeds(occs, t as int, j as int, states@, pi as int, gb, true));
                            lemma_step(occs, t as int, j as int, states@, pi as int, g as int, gb, true, before, bw, n1, nw1, old_n1);
                            lemma_skip(occs, t as int, j as int, states@, pi as int, g as int, gb, false, n0, nw0, old_n0);
                        }
                    } else {
                        let ghost before = n0;
                        let ghost bw = nw0;
                        keep_better_state(&mut n0, candidate);
                        proof {
                            if n0 == Some(candidate) {
                                nw0 = cw;
                            }
                            if before is Some {
                                lemma_key_total(state_key(candidate), state_key(before.unwrap()));
                            }
                            assert(feeds(occs, t as int, j as int, states@, pi as int, gb, false));
                            lemma_step(occs, t as int, j as int, states@, pi as int, g as int, gb, false, before, bw, n0, nw0, old_n0);
                            lemma_skip(occs, t as int, j as int, states@, pi as int, g as int, gb, true, n1, nw1, old_n1);
                        }
                    }
                } else {
                    proof {
                        lemma_skip(occs, t as int, j as int, states@, pi as int, g as int, gb, false, n0, nw0, old_n0);
                        lemma_skip(occs, t as int, j as int, states@, pi as int, g as int, gb, true, n1, nw1, old_n1);
                    }
                }
                g += 1;
            }
        }
        proof {
            lemma_advance(occs, t as int, j as int, states@, pi as int, false, n0, nw0, old_n0, old_nw0);
            lemma_advance(occs, t as int, j as int, states@, pi as int, true, n1, nw1, old_n1, old_nw1);
        }
        pi += 1;
    }
    proof {
        lemma_close_slot(occs, t as int, j as int, states@, w0, w1, false, n0, nw0);
        lemma_close_slot(occs, t as int, j as int, states@, w0, w1, true, n1, nw1);
    }
    (Slots { parent_only: n0, with_non_parent: n1 }, Ghost(nw0), Ghost(nw1))
}

proof fn lemma_singleton_chain(occs: Seq<Seq<Occ>>, j: int)
    requires
        occs.len() >= 1,
        0 <= j < occs[0].len(),
    ensures
        chain_ok(occs, seq![j]),
        chain_b(occs, seq![j]) == occs[0][j].boundary,
        chain_f(occs, seq![j]) == occs[0][j].penalty,
        chain_np(occs, seq![j]) == !occs[0][j].is_parent,
        chain_first(occs, seq![j]) == occs[0][j].start,
        chain_end(occs, seq![j]) == occs[0][j].end,
        forall|c: Seq<int>, f: bool| #[trigger] ends_at(occs, c, 0, j, f) ==> c == seq![j],
{
    let c = seq![j];
    assert(c.drop_last() =~= Seq::<int>::empty());
    assert(chain_b(occs, c.drop_last()) == 0);
    assert(chain_f(occs, c.drop_last()) == 0);
    assert(!chain_np(occs, c.drop_last()));
    assert forall|c2: Seq<int>, f: bool| #[trigger] ends_at(occs, c2, 0, j, f) implies c2 == seq![j] by {
        assert(c2 =~= seq![j]);
    }
}

/// One slot per occurrence of the first term: the chain made of it alone.
fn first_layer(matches: &Vec<Vec<SearchOccurrence>>) -> (r: (Vec<Slots>, Ghost<Seq<Seq<int>>>, Ghost<Seq<Seq<int>>>))
    requires
        matches@.len() >= 1,
        all_fit(occs_of(matches@)),
    ensures
        layer_ok(occs_of(matches@), 0, r.0@, r.1@, r.2@),
{
    let ghost occs = occs_of(matches@);
    let first_matches = &matches[0];
    assert(occs[0] == occ_view(first_matches@));
    let mut states: Vec<Slots> = Vec::new();
    let ghost mut w0: Seq<Seq<int>> = seq![];
    let ghost mut w1: Seq<Seq<int>> = seq![];
    let nf = first_matches.len();
    let mut index: usize = 0;
    while index < nf
        invariant
            index <= nf,
            nf == first_matches@.len(),
            occs == occs_of(matches@),
            occs[0] == occ_view(first_matches@),
            matches@.len() >= 1,
            all_fit(occs),
            states@.len() == index,
            layer_upto(occs, 0, states@, w0, w1),
        decreases nf - index,
    {
        let occurrence = first_matches[index];
        assert(occurrence@ == occs[0][index as int]);
        proof {
            lemma_singleton_chain(occs, index as int);
            assert(occ_fits(occs[0][index as int]));
        }
        let state = OrderedState {
            first_start: occurrence.start,
            end: occurrence.end,
            boundary_penalty: occurrence.boundary_penalty,
            field_penalty: occurrence.field_penalty,
            has_non_parent: !occurrence.is_parent,
        };
        let ghost c = seq![index as int];
        assert(realized_by(occs, state, c));
        let sl = if state.has_non_parent {
            Slots { parent_only: None, with_non_parent: Some(state) }
        } else {
            Slots { parent_only: Some(state), with_non_parent: None }
        };
        proof {
            assert(ends_at(occs, c, 0, index as int, state.has_non_parent));
            let other = !state.has_non_parent;
            assert forall|c2: Seq<int>| #[trigger] ends_at(occs, c2, 0, index as int, other) implies false by {
                assert(c2 == c);
            }
            assert forall|c2: Seq<int>| #[trigger] ends_at(occs, c2, 0, index as int, state.has_non_parent) implies key_le(state_key(state), chain_key(occs, c2)) by {
                assert(c2 == c);
            }
            assert(slot_ok(occs, 0, index as int, false, sl.parent_only, c));
            assert(slot_ok(occs, 0, index as int, true, sl.with_non_parent, c));
            w0 = w0.push(c);
            w1 = w1.push(c);
        }
        let ghost prev_states = states@;
        states.push(sl);
        proof {
            assert forall|j: int| 0 <= j < states@.len() implies slot_ok(occs, 0, j, false, #[trigger] states@[j].parent_only, w0[j]) by {
                if j < index {
                    assert(states@[j] == prev_states[j]);
                }
            }
            assert forall|j: int| 0 <= j < states@.len() implies slot_ok(occs, 0, j, true, #[trigger] states@[j].with_non_parent, w1[j]) by {
                if j < index {
                    assert(states@[j] == prev_states[j]);
                }
            }
        }
        index += 1;
    }
    (states, Ghost(w0), Ghost(w1))
}

/// The slots of layer `t + 1`, from those of layer `t`.
fn next_layer(
    matches: &Vec<Vec<SearchOccurrence>>,
    t: usize,
    states: &Vec<Slots>,
    Ghost(w0): Ghost<Seq<Seq<int>>>,
    Ghost(w1): Ghost<Seq<Seq<int>>>,
) -> (r: (Vec<Slots>, Ghost<Seq<Seq<int>>>, Ghost<Seq<Seq<int>>>))
    requires
        t + 1 < matches@.len(),
        all_fit(occs_of(matches@)),
        layer_ok(occs_of(matches@), t as int, states@, w0, w1),
    ensures
        layer_ok(occs_of(matches@), t + 1, r.0@, r.1@, r.2@),
{
    let ghost occs = occs_of(matches@);
    let nm = matches.len();
    let current_matches = &matches[t + 1];
    assert(occs[t + 1] == occ_view(current_matches@));
    let nc = current_matches.len();
    let mut next_states: Vec<Slots> = Vec::new();
    let ghost mut nw0: Seq<Seq<int>> = seq![];
    let ghost mut nw1: Seq<Seq<int>> = seq![];
    let mut j: usize = 0;
    while j < nc
        invariant
            j <= nc,
            nc == current_matches@.len(),
            nm == matches@.len(),
            *current_matches == matches@[t + 1],
            t + 1 < matches@.len(),
            occs == occs_of(matches@),
            occs[t + 1] == occ_view(current_matches@),
            all_fit(occs),
            layer_ok(occs, t as int, states@, w0, w1),
            next_states@.len() == j,
            layer_upto(occs, t + 1, next_states@, nw0, nw1),
        decreases nc - j,
    {
        let (sl, Ghost(a0), Ghost(a1)) = best_ending_at(matches, t, states, Ghost(w0), Ghost(w1), j);
        let ghost prev_states = next_states@;
        next_states.push(sl);
        proof {
            nw0 = nw0.push(a0);
            nw1 = nw1.push(a1);
            assert forall|jj: int| 0 <= jj < next_states@.len() implies slot_ok(occs, t + 1, jj, false, #[trigger] next_states@[jj].parent_only, nw0[jj]) by {
                if jj < j {
                    assert(next_states@[jj] == prev_states[jj]);
                }
            }
            assert forall|jj: int| 0 <= jj < next_states@.len() implies slot_ok(occs, t + 1, jj, true, #[trigger] next_states@[jj].with_non_parent, nw1[jj]) by {
                if jj < j {
                    assert(next_states@[jj] == prev_states[jj]);
                }
            }
        }
        j += 1;
    }
    (next_states, Ghost(nw0), Ghost(nw1))
}

/// While the slots of occurrences `0..j` of the last term have been
/// compared: `best` is the least of those allowed (flag set, when
/// `require`), and is empty only when all of them are.
pub open spec fn pick_ok(
    occs: Seq<Seq<Occ>>,
    t: int,
    states: Seq<Slots>,
    j: int,
    require: bool,
    best: Option<OrderedState>,
    bw: Seq<int>,
) -> bool {
    &&& best is Some ==> realized_by(occs, best.unwrap(), bw) && bw.len() == t + 1 && (require
        ==> chain_np(occs, bw)) && best.unwrap().first_start <= best.unwrap().end
    &&& pick_cover(states, j, require, best)
}

pub open spec fn pick_cover(
    states: Seq<Slots>,
    j: int,
    require: bool,
    best: Option<OrderedState>,
) -> bool {
    &&& forall|jj: int, f: bool|
        0 <= jj < j && (f || !require) && (#[trigger] slot_of(states[jj], f)) is Some ==> best is Some
            && key_le(state_key(best.unwrap()), state_key(slot_of(states[jj], f).unwrap()))
    &&& best is None ==> forall|jj: int, f: bool|
        0 <= jj < j && (f || !require) ==> (#[trigger] slot_of(states[jj], f)) is None
}

/// The best full chain among the slots of the last term.
fn pick_best(
    matches: &Vec<Vec<SearchOccurrence>>,
    states: &Vec<Slots>,
    Ghost(w0): Ghost<Seq<Seq<int>>>,
    Ghost(w1): Ghost<Seq<Seq<int>>>,
    require_non_parent: bool,
) -> (r: Option<OrderedState>)
    requires
        matches@.len() >= 1,
        all_fit(occs_of(matches@)),
        layer_ok(occs_of(matches@), matches@.len() - 1, states@, w0, w1),
    ensures
        r is Some <==> has_full_chain(occs_of(matches@), require_non_parent),
        r is Some ==> is_min_key(occs_of(matches@), require_non_parent, state_key(r.unwrap())),
        r is Some ==> r.unwrap().first_start <= r.unwrap().end,
        r is Some ==> exists|c: Seq<int>|
            #[trigger] full_chain(occs_of(matches@), c, require_non_parent) && realized_by(occs_of(matches@), r.unwrap(), c),
{
    let ghost occs = occs_of(matches@);
    let ghost t = matches@.len() - 1;
    let mut best: Option<OrderedState> = None;
    let ghost mut bw: Seq<int> = seq![];
    let ns = states.len();
    let mut j: usize = 0;
    while j < ns
        invariant
            j <= ns,
            ns == states@.len(),
            occs == occs_of(matches@),
            t == matches@.len() - 1,
            matches@.len() >= 1,
            all_fit(occs),
            layer_ok(occs, t, states@, w0, w1),
            pick_ok(occs, t, states@, j as int, require_non_parent, best, bw),
        decreases ns - j,
    {
        let sl = states[j];
        let ghost old_best = best;
        let mut g: usize = if require_non_parent {
            1
        } else {
            0
        };
        while g < 2
            invariant
                g <= 2,
                require_non_parent ==> g >= 1,
                j < ns,
                ns == states@.len(),
                sl == states@[j as int],
                occs == occs_of(matches@),
                t == matches@.len() - 1,
                matches@.len() >= 1,
                all_fit(occs),
                layer_ok(occs, t, states@, w0, w1),
                pick_cover(states@, j as int, require_non_parent, old_best),
                best is Some ==> realized_by(occs, best.unwrap(), bw) && bw.len() == t + 1 && (
                require_non_parent ==> chain_np(occs, bw)) && best.unwrap().first_start
                    <= best.unwrap().end,
                old_best is Some ==> best is Some && key_le(
                    state_key(best.unwrap()),
                    state_key(old_best.unwrap()),
                ),
                forall|f: bool|
                    (if f {
                        1int
                    } else {
                        0int
                    }) < g && (f || !require_non_parent) && (#[trigger] slot_of(
                        states@[j as int],
                        f,
                    )) is Some ==> best is Some && key_le(
                        state_key(best.unwrap()),
                        state_key(slot_of(states@[j as int], f).unwrap()),
                    ),
                best is None ==> old_best is None && forall|f: bool|
                    (if f {
                        1int
                    } else {
                        0int
                    }) < g && (f || !require_non_parent) ==> (#[trigger] slot_of(
                        states@[j as int],
                        f,
                    )) is None,
            decreases 2 - g,
        {
            let ghost gb: bool = g == 1;
            let slot = if g == 0 {
                sl.parent_only
            } else {
                sl.with_non_parent
            };
            assert(slot == slot_of(states@[j as int], gb));
            if let Some(state) = slot {
                proof {
                    lemma_layer_slot(occs, t, states@, w0, w1, j as int, gb);
                    lemma_chain_bounds(occs, witness_of(w0, w1, gb, j as int));
                }
                let ghost before = best;
                keep_better_state(&mut best, state);
                proof {
                    if best == Some(state) {
                        bw = witness_of(w0, w1, gb, j as int);
                    }
                    if before is Some {
                        lemma_key_total(state_key(state), state_key(before.unwrap()));
                        if old_best is Some {
                            lemma_key_le_trans(state_key(best.unwrap()), state_key(before.unwrap()), state_key(old_best.unwrap()));
                        }
                    }
                    assert forall|f: bool|
                        (if f { 1int } else { 0int }) < g + 1 && (f || !require_non_parent) && (#[trigger] slot_of(states@[j as int], f)) is Some
                        implies best is Some && key_le(state_key(best.unwrap()), state_key(slot_of(states@[j as int], f).unwrap())) by {
                        if f != gb {
                            lemma_key_le_trans(state_key(best.unwrap()), state_key(before.unwrap()), state_key(slot_of(states@[j as int], f).unwrap()));
                        }
                    }
                }
            }
            g += 1;
        }
        proof {
            assert forall|jj: int, f: bool|
                0 <= jj < j + 1 && (f || !require_non_parent) && (#[trigger] slot_of(states@[jj], f)) is Some
                implies best is Some && key_le(state_key(best.unwrap()), state_key(slot_of(states@[jj], f).unwrap())) by {
                if jj < j {
                    lemma_key_le_trans(state_key(best.unwrap()), state_key(old_best.unwrap()), state_key(slot_of(states@[jj], f).unwrap()));
                }
            }
        }
        j += 1;
    }
    proof {
        assert forall|c: Seq<int>| #[trigger] full_chain(occs, c, require_non_parent) implies best is Some
            && key_le(state_key(best.unwrap()), chain_key(occs, c)) by {
            let jj = c[t];
            let f = chain_np(occs, c);
            assert(0 <= jj < occs[t].len());
            assert(ends_at(occs, c, t, jj, f));
            lemma_layer_slot(occs, t, states@, w0, w1, jj, f);
            assert(slot_of(states@[jj], f) is Some);
            lemma_key_le_trans(state_key(best.unwrap()), state_key(slot_of(states@[jj], f).unwrap()), chain_key(occs, c));
        }
        if best is Some {
            assert(full_chain(occs, bw, require_non_parent));
            assert(chain_key(occs, bw) == state_key(best.unwrap()));
            assert(realized_by(occs, best.unwrap(), bw));
        }
    }
    best
}

/// The best chain that takes one occurrence of every term in query order;
/// with `require_non_parent`, one that also matches outside the promoted
/// submenu title. The state returned records one such chain of least key:
/// its first start, last end, summed penalties, and whether it touches a
/// field other than the promoted submenu title.
pub fn best_ordered_state(matches_by_term: &Vec<Vec<SearchOccurrence>>, require_non_parent: bool) -> (r: Option<OrderedState>)
    requires
        all_fit(occs_of(matches_by_term@)),
    ensures
        r is Some <==> has_full_chain(occs_of(matches_by_term@), require_non_parent),
        r is Some ==> is_min_key(occs_of(matches_by_term@), require_non_parent, state_key(r.unwrap())),
        r is Some ==> r.unwrap().first_start <= r.unwrap().end,
        r is Some ==> exists|c: Seq<int>|
            #[trigger] full_chain(occs_of(matches_by_term@), c, require_non_parent) && realized_by(
                occs_of(matches_by_term@),
                r.unwrap(),
                c,
            ) && chain_key(occs_of(matches_by_term@), c) == state_key(r.unwrap()),
        r is Some && require_non_parent ==> r.unwrap().has_non_parent,
{
    let n = matches_by_term.len();
    if n == 0 {
        proof {
            assert forall|c: Seq<int>| !#[trigger] full_chain(occs_of(matches_by_term@), c, require_non_parent) by {}
        }
        return None;
    }
    let (mut states, Ghost(mut w0), Ghost(mut w1)) = first_layer(matches_by_term);
    let mut term_index: usize = 1;
    while term_index < n
        invariant
            1 <= term_index <= n,
            n == matches_by_term@.len(),
            all_fit(occs_of(matches_by_term@)),
            layer_ok(occs_of(matches_by_term@), term_index - 1, states@, w0, w1),
        decreases n - term_index,
    {
        let (next_states, Ghost(a0), Ghost(a1)) = next_layer(matches_by_term, term_index - 1, &states, Ghost(w0), Ghost(w1));
        states = next_states;
        proof {
            w0 = a0;
            w1 = a1;
        }
        term_index += 1;
    }
    pick_best(matches_by_term, &states, Ghost(w0), Ghost(w1), require_non_parent)
}

// ---------------------------------------------------------------------------
// The score of a command
// ---------------------------------------------------------------------------

/// How well a command matches, compared lexicographically: order penalty
/// (0 when the terms match in query order), boundary penalty, field
/// penalty, span and start of the matched text.
pub struct ScoreSpec {
    pub order: int,
    pub b: int,
    pub f: int,
    pub span: int,
    pub start: int,
}

#[derive(Clone, Copy)]
pub struct SearchScore {
    pub order_penalty: u128,
    pub boundary_penalty: u128,
    pub field_penalty: u128,
    pub span: u128,
    pub start: u128,
}

impl View for SearchScore {
    type V = ScoreSpec;

    open spec fn view(&self) -> ScoreSpec {
        ScoreSpec {
            order: self.order_penalty as int,
            b: self.boundary_penalty as int,
            f: self.field_penalty as int,
            span: self.span as int,
            start: self.start as int,
        }
    }
}

pub open spec fn score_view(r: Option<SearchScore>) -> Option<ScoreSpec> {
    match r {
        Some(s) => Some(s@),
        None => None,
    }
}

/// Occurrence order used when the terms cannot be matched in query order:
/// boundary penalty, field penalty, then position.
pub open spec fn key3_lt(a: Occ, b: Occ) -> bool {
    ||| a.boundary < b.boundary
    ||| a.boundary == b.boundary && a.penalty < b.penalty
    ||| a.boundary == b.boundary && a.penalty == b.penalty && a.start < b.start
}

/// The first occurrence that no other occurrence beats.
pub open spec fn min_occ(s: Seq<Occ>) -> Occ
    decreases s.len(),
{
    if s.len() <= 1 {
        s[0]
    } else {
        let m = min_occ(s.drop_last());
        if key3_lt(s.last(), m) {
            s.last()
        } else {
            m
        }
    }
}

/// The occurrences of term `t` outside the promoted submenu title, with `t`.
pub open spec fn np_in(os: Seq<Occ>, t: int) -> Seq<(int, Occ)>
    decreases os.len(),
{
    if os.len() == 0 {
        seq![]
    } else {
        let p = np_in(os.drop_last(), t);
        if os.last().is_parent {
            p
        } else {
            p.push((t, os.last()))
        }
    }
}

/// `np_in` for the terms `0..t`, term by term.
pub open spec fn np_pairs(occs: Seq<Seq<Occ>>, t: int) -> Seq<(int, Occ)>
    decreases t,
{
    if t <= 0 {
        seq![]
    } else {
        np_pairs(occs, t - 1) + np_in(occs[t - 1], t - 1)
    }
}

/// The first pair whose occurrence no other beats.
pub open spec fn min_pair(ps: Seq<(int, Occ)>) -> Option<(int, Occ)>
    decreases ps.len(),
{
    if ps.len() == 0 {
        None
    } else {
        match min_pair(ps.drop_last()) {
            None => Some(ps.last()),
            Some(m) => if key3_lt(ps.last().1, m.1) {
                Some(ps.last())
            } else {
                Some(m)
            },
        }
    }
}

pub open spec fn first_choice(occs: Seq<Seq<Occ>>) -> Seq<Occ> {
    occs.map_values(|os: Seq<Occ>| min_occ(os))
}

pub open spec fn all_parent(s: Seq<Occ>) -> bool {
    forall|t: int| 0 <= t < s.len() ==> (#[trigger] s[t]).is_parent
}

/// The best occurrence of each term; when a non-title match is required and
/// none was chosen, the best non-title occurrence of any term replaces the
/// choice for its term.
pub open spec fn chosen_occs(occs: Seq<Seq<Occ>>, require: bool) -> Seq<Occ> {
    let c0 = first_choice(occs);
    if require && all_parent(c0) {
        match min_pair(np_pairs(occs, occs.len() as int)) {
            Some(p) => c0.update(p.0, p.1),
            None => c0,
        }
    } else {
        c0
    }
}

/// Number of occurrences of `s` that start after `x`.
pub open spec fn count_after(s: Seq<Occ>, x: int) -> int
    decreases s.len(),
{
    if s.len() == 0 {
        0
    } else {
        count_after(s.drop_last(), x) + if s.last().start > x {
            1int
        } else {
            0int
        }
    }
}

/// Number of pairs that appear in the opposite order of their positions.
pub open spec fn inversions(s: Seq<Occ>) -> int
    decreases s.len(),
{
    if s.len() == 0 {
        0
    } else {
        inversions(s.drop_last()) + count_after(s.drop_last(), s.last().start)
    }
}

pub open spec fn sum_b(s: Seq<Occ>) -> int
    decreases s.len(),
{
    if s.len() == 0 {
        0
    } else {
        sum_b(s.drop_last()) + s.last().boundary
    }
}

pub open spec fn sum_f(s: Seq<Occ>) -> int
    decreases s.len(),
{
    if s.len() == 0 {
        0
    } else {
        sum_f(s.drop_last()) + s.last().penalty
    }
}

pub open spec fn min_start(s: Seq<Occ>) -> int
    decreases s.len(),
{
    if s.len() <= 1 {
        s[0].start
    } else {
        let m = min_start(s.drop_last());
        if s.last().start < m {
            s.last().start
        } else {
            m
        }
    }
}

pub open spec fn max_end(s: Seq<Occ>) -> int
    decreases s.len(),
{
    if s.len() <= 1 {
        s[0].end
    } else {
        let m = max_end(s.drop_last());
        if s.last().end > m {
            s.last().end
        } else {
            m
        }
    }
}

pub open spec fn fallback_score(occs: Seq<Seq<Occ>>, require: bool) -> ScoreSpec {
    let ch = chosen_occs(occs, require);
    ScoreSpec {
        order: 1 + inversions(ch),
        b: sum_b(ch),
        f: sum_f(ch),
        span: max_end(ch) - min_start(ch),
        start: min_start(ch),
    }
}

pub open spec fn some_term_unmatched(occs: Seq<Seq<Occ>>) -> bool {
    exists|t: int| 0 <= t < occs.len() && (#[trigger] occs[t]).len() == 0
}

pub open spec fn some_non_parent(occs: Seq<Seq<Occ>>) -> bool {
    exists|t: int, i: int| 0 <= t < occs.len() && 0 <= i < occs[t].len() && !(#[trigger] occs[t][i]).is_parent
}

/// The score of a command whose terms occur at `occs`: none when some term
/// does not occur, or when only the promoted submenu title matches although
/// a match elsewhere is required; otherwise the best ordered chain, and
/// failing that the best occurrence of each term.
pub open spec fn score_of(occs: Seq<Seq<Occ>>, require: bool) -> Option<ScoreSpec> {
    if occs.len() == 0 || some_term_unmatched(occs) {
        None
    } else if require && !some_non_parent(occs) {
        None
    } else if has_full_chain(occs, require) {
        let k = min_chain_key(occs, require);
        Some(ScoreSpec { order: 0, b: k.b, f: k.f, span: k.span, start: k.first })
    } else {
        Some(fallback_score(occs, require))
    }
}

pub open spec fn occs_for(fs: Seq<FieldSpec>, terms: Seq<Seq<char>>) -> Seq<Seq<Occ>> {
    terms.map_values(|t: Seq<char>| term_occs(fs, t))
}

/// The score of the fields `fs` against the query terms.
pub open spec fn score_spec(fs: Seq<FieldSpec>, terms: Seq<Seq<char>>, require: bool) -> Option<ScoreSpec> {
    score_of(occs_for(fs, terms), require)
}

/// All occurrences of each term, term by term.
pub fn occurrences_by_term(fields: &Vec<SearchField>, terms: &Vec<SearchTerm>) -> (r: Vec<Vec<SearchOccurrence>>)
    requires
        fields_wf(fields@),
        terms_wf(terms@),
    ensures
        occs_of(r@) == occs_for(fields_spec(fields@), terms_spec(terms@)),
        all_sane(occs_of(r@)),
{
    let ghost fs = fields_spec(fields@);
    let ghost ts = terms_spec(terms@);
    let mut out: Vec<Vec<SearchOccurrence>> = Vec::new();
    let n = terms.len();
    let mut i: usize = 0;
    while i < n
        invariant
            i <= n,
            n == terms@.len(),
            fs == fields_spec(fields@),
            ts == terms_spec(terms@),
            fields_wf(fields@),
            terms_wf(terms@),
            out@.len() == i,
            occs_of(out@) == occs_for(fs, ts.take(i as int)),
            all_sane(occs_of(out@)),
        decreases n - i,
    {
        assert(terms@[i as int].wf());
        let occ = term_occurrences(fields, &terms[i]);
        let ghost before = out@;
        out.push(occ);
        proof {
            assert(ts.take(i + 1) =~= ts.take(i as int).push(ts[i as int]));
            assert(ts[i as int] == terms@[i as int].chars@);
            assert forall|q: int| 0 <= q < i + 1 implies occs_of(out@)[q] == occs_for(fs, ts.take(i + 1))[q] by {
                if q < i {
                    assert(out@[q] == before[q]);
                    assert(occs_of(before)[q] == occs_for(fs, ts.take(i as int))[q]);
                }
            }
            assert(occs_of(out@) =~= occs_for(fs, ts.take(i + 1)));
            assert forall|t: int, k: int| 0 <= t < occs_of(out@).len() && 0 <= k < occs_of(out@)[t].len()
                implies occ_sane(#[trigger] occs_of(out@)[t][k]) by {
                if t < i {
                    assert(occs_of(out@)[t] == occs_of(before)[t]);
                } else {
                    assert(occs_of(out@)[t][k] == occ@[k]@);
                }
            }
        }
        i += 1;
    }
    proof {
        assert(ts.take(n as int) =~= ts);
    }
    out
}

pub fn occ_less(a: &SearchOccurrence, b: &SearchOccurrence) -> (r: bool)
    ensures
        r == key3_lt(a@, b@),
{
    a.boundary_penalty < b.boundary_penalty || (a.boundary_penalty == b.boundary_penalty && (
    a.field_penalty < b.field_penalty || (a.field_penalty == b.field_penalty && a.start
        < b.start)))
}

/// The first best occurrence of a term (`min_by_key` on boundary penalty,
/// field penalty, start).
pub fn min_occurrence(os: &Vec<SearchOccurrence>) -> (r: SearchOccurrence)
    requires
        os@.len() >= 1,
        forall|i: int| 0 <= i < os@.len() ==> occ_sane(#[trigger] os@[i]@),
    ensures
        r@ == min_occ(occ_view(os@)),
        occ_sane(r@),
{
    let ghost v = occ_view(os@);
    let mut m = os[0];
    let n = os.len();
    let mut i: usize = 1;
    proof {
        assert(v.take(1).len() == 1);
    }
    while i < n
        invariant
            1 <= i <= n,
            n == os@.len(),
            v == occ_view(os@),
            m@ == min_occ(v.take(i as int)),
            occ_sane(m@),
            forall|i: int| 0 <= i < os@.len() ==> occ_sane(#[trigger] os@[i]@),
        decreases n - i,
    {
        assert(v.take(i + 1).drop_last() =~= v.take(i as int));
        assert(v.take(i + 1).last() == os@[i as int]@);
        if occ_less(&os[i], &m) {
            m = os[i];
        }
        i += 1;
    }
    assert(v.take(n as int) =~= v);
    m
}

pub open spec fn pair_view(p: Option<(usize, SearchOccurrence)>) -> Option<(int, Occ)> {
    match p {
        Some(q) => Some((q.0 as int, q.1@)),
        None => None,
    }
}

/// The first best occurrence outside the promoted submenu title, of any
/// term, with its term.
pub fn best_non_parent(matches: &Vec<Vec<SearchOccurrence>>) -> (r: Option<(usize, SearchOccurrence)>)
    requires
        all_sane(occs_of(matches@)),
    ensures
        pair_view(r) == min_pair(np_pairs(occs_of(matches@), matches@.len() as int)),
        r matches Some(q) ==> q.0 < matches@.len() && occ_sane(q.1@),
{
    let ghost occs = occs_of(matches@);
    let mut best: Option<(usize, SearchOccurrence)> = None;
    let nt = matches.len();
    let mut t: usize = 0;
    while t < nt
        invariant
            t <= nt,
            nt == matches@.len(),
            occs == occs_of(matches@),
            pair_view(best) == min_pair(np_pairs(occs, t as int)),
            best matches Some(q) ==> q.0 < nt && occ_sane(q.1@),
            all_sane(occs),
        decreases nt - t,
    {
        let os = &matches[t];
        let ghost v = occs[t as int];
        assert(v == occ_view(os@));
        let ghost base = np_pairs(occs, t as int);
        let no = os.len();
        let mut i: usize = 0;
        proof {
            assert(v.take(0) =~= Seq::<Occ>::empty());
            assert(base + np_in(v.take(0), t as int) =~= base);
        }
        while i < no
            invariant
                i <= no,
                no == os@.len(),
                v == occ_view(os@),
                t < nt,
                nt == matches@.len(),
                pair_view(best) == min_pair(base + np_in(v.take(i as int), t as int)),
                best matches Some(q) ==> q.0 < nt && occ_sane(q.1@),
                all_sane(occs),
                occs == occs_of(matches@),
                v == occs[t as int],
            decreases no - i,
        {
            let o = os[i];
            proof {
                assert(occ_sane(occs[t as int][i as int]));
                assert(v.take(i + 1).drop_last() =~= v.take(i as int));
                assert(v.take(i + 1).last() == o@);
            }
            if !o.is_parent {
                proof {
                    let xs = base + np_in(v.take(i as int), t as int);
                    assert(base + np_in(v.take(i + 1), t as int) =~= xs.push((t as int, o@)));
                    assert(xs.push((t as int, o@)).drop_last() =~= xs);
                }
                let replace = match best {
                    None => true,
                    Some(b) => occ_less(&o, &b.1),
                };
                if replace {
                    best = Some((t, o));
                }
            } else {
                assert(np_in(v.take(i + 1), t as int) == np_in(v.take(i as int), t as int));
            }
            i += 1;
        }
        proof {
            assert(v.take(no as int) =~= v);
        }
        t += 1;
    }
    best
}

/// Number of pairs of chosen occurrences that appear in the opposite order
/// of their positions.
pub fn inversion_count(ch: &Vec<SearchOccurrence>) -> (r: u128)
    ensures
        r == inversions(occ_view(ch@)),
        r + ch@.len() <= ch@.len() * pow64(),
{
    let ghost v = occ_view(ch@);
    let n = ch.len();
    let mut inv: u128 = 0;
    let mut right: usize = 0;
    proof {
        assert(v.take(0) =~= Seq::<Occ>::empty());
    }
    while right < n
        invariant
            right <= n,
            n == ch@.len(),
            v == occ_view(ch@),
            inv == inversions(v.take(right as int)),
            inv <= right * pow64() - right,
        decreases n - right,
    {
        let x = ch[right].start;
        let mut c: u128 = 0;
        let mut left: usize = 0;
        proof {
            assert(v.take(right as int).take(0) =~= Seq::<Occ>::empty());
        }
        while left < right
            invariant
                left <= right,
                right < n,
                n == ch@.len(),
                v == occ_view(ch@),
                x == v[right as int].start,
                c == count_after(v.take(right as int).take(left as int), x as int),
                c <= left,
            decreases right - left,
        {
            proof {
                let w = v.take(right as int);
                assert(w.take(left + 1).drop_last() =~= w.take(left as int));
                assert(w.take(left + 1).last() == ch@[left as int]@);
            }
            if ch[left].start > x {
                c += 1;
            }
            left += 1;
        }
        proof {
            let w = v.take(right as int);
            assert(w.take(right as int) =~= w);
            assert(v.take(right + 1).drop_last() =~= w);
            assert(v.take(right + 1).last() == v[right as int]);
        }
        inv = inv + c;
        right += 1;
    }
    proof {
        assert(v.take(n as int) =~= v);
    }
    inv
}

proof fn lemma_start_le_end(s: Seq<Occ>)
    requires
        s.len() >= 1,
        forall|i: int| 0 <= i < s.len() ==> occ_sane(#[trigger] s[i]),
    ensures
        0 <= min_start(s) <= max_end(s),
    decreases s.len(),
{
    assert(occ_sane(s[0]));
    if s.len() > 1 {
        assert(occ_sane(s.last()));
        let p = s.drop_last();
        assert forall|i: int| 0 <= i < p.len() implies occ_sane(#[trigger] p[i]) by {
            assert(p[i] == s[i]);
        }
        lemma_start_le_end(p);
    }
}

/// The score when the terms cannot be matched in query order.
fn fallback_score_of(matches: &Vec<Vec<SearchOccurrence>>, require_non_parent: bool) -> (r: SearchScore)
    requires
        matches@.len() >= 1,
        all_sane(occs_of(matches@)),
        !some_term_unmatched(occs_of(matches@)),
    ensures
        r@ == fallback_score(occs_of(matches@), require_non_parent),
{
    let ghost occs = occs_of(matches@);
    let n = matches.len();
    let mut chosen: Vec<SearchOccurrence> = Vec::new();
    let mut t: usize = 0;
    while t < n
        invariant
            t <= n,
            n == matches@.len(),
            occs == occs_of(matches@),
            all_sane(occs),
            !some_term_unmatched(occs),
            chosen@.len() == t,
            occ_view(chosen@) == first_choice(occs).take(t as int),
            forall|i: int| 0 <= i < chosen@.len() ==> occ_sane(#[trigger] chosen@[i]@),
        decreases n - t,
    {
        assert(occs[t as int] == occ_view(matches@[t as int]@));
        assert(occs[t as int].len() != 0);
        assert forall|i: int| 0 <= i < matches@[t as int]@.len() implies occ_sane(#[trigger] matches@[t as int]@[i]@) by {
            assert(occs[t as int][i] == matches@[t as int]@[i]@);
        }
        let m = min_occurrence(&matches[t]);
        let ghost before = chosen@;
        chosen.push(m);
        proof {
            assert forall|q: int| 0 <= q < t + 1 implies occ_view(chosen@)[q] == first_choice(occs).take(t + 1)[q] by {
                if q < t {
                    assert(chosen@[q] == before[q]);
                    assert(occ_view(before)[q] == first_choice(occs).take(t as int)[q]);
                }
            }
            assert(occ_view(chosen@) =~= first_choice(occs).take(t + 1));
            assert forall|i: int| 0 <= i < chosen@.len() implies occ_sane(#[trigger] chosen@[i]@) by {
                if i < t {
                    assert(chosen@[i] == before[i]);
                }
            }
        }
        t += 1;
    }
    assert(first_choice(occs).take(n as int) =~= first_choice(occs));
    if require_non_parent {
        let mut all_par = true;
        let mut k: usize = 0;
        while k < n
            invariant
                k <= n,
                n == chosen@.len(),
                all_par == all_parent(occ_view(chosen@).take(k as int)),
            decreases n - k,
        {
            proof {
                let w = occ_view(chosen@);
                assert forall|q: int| 0 <= q < k + 1 implies (#[trigger] w.take(k + 1)[q]) == w.take(k as int + 1)[q] by {}
                if all_parent(w.take(k + 1)) {
                    assert forall|q: int| 0 <= q < k implies (#[trigger] w.take(k as int)[q]).is_parent by {
                        assert(w.take(k as int)[q] == w.take(k + 1)[q]);
                    }
                }
                if all_parent(w.take(k as int)) && chosen@[k as int].is_parent {
                    assert forall|q: int| 0 <= q < k + 1 implies (#[trigger] w.take(k + 1)[q]).is_parent by {
                        if q < k {
                            assert(w.take(k as int)[q] == w.take(k + 1)[q]);
                        }
                    }
                }
                if !chosen@[k as int].is_parent {
                    assert(!w.take(k + 1)[k as int].is_parent);
                }
            }
            if !chosen[k].is_parent {
                all_par = false;
            }
            k += 1;
        }
        assert(occ_view(chosen@).take(n as int) =~= occ_view(chosen@));
        if all_par {
            match best_non_parent(matches) {
                Some((ti, o)) => {
                    let ghost before = chosen@;
                    chosen.set(ti, o);
                    proof {
                        assert(occ_view(chosen@) =~= occ_view(before).update(ti as int, o@));
                        assert forall|i: int| 0 <= i < chosen@.len() implies occ_sane(#[trigger] chosen@[i]@) by {
                            if i != ti {
                                assert(chosen@[i] == before[i]);
                            }
                        }
                    }
                },
                None => {},
            }
        }
    }
    let ghost ch = occ_view(chosen@);
    assert(ch == chosen_occs(occs, require_non_parent));
    let inversions_found = inversion_count(&chosen);
    let mut b: u128 = 0;
    let mut f: u128 = 0;
    let mut start: u128 = chosen[0].start;
    let mut end: u128 = chosen[0].end;
    let mut i: usize = 0;
    proof {
        assert(ch.take(1).len() == 1);
        assert(ch.take(0) =~= Seq::<Occ>::empty());
        assert(ch[0] == chosen@[0]@);
    }
    while i < n
        invariant
            i <= n,
            n == chosen@.len(),
            n >= 1,
            ch == occ_view(chosen@),
            forall|q: int| 0 <= q < chosen@.len() ==> occ_sane(#[trigger] chosen@[q]@),
            b == sum_b(ch.take(i as int)),
            f == sum_f(ch.take(i as int)),
            b <= 2 * i,
            f <= 2 * i,
            start == min_start(ch.take(if i == 0 { 1 } else { i as int })),
            end == max_end(ch.take(if i == 0 { 1 } else { i as int })),
        decreases n - i,
    {
        let o = chosen[i];
        proof {
            assert(occ_sane(chosen@[i as int]@));
            assert(ch.take(i + 1).drop_last() =~= ch.take(i as int));
            assert(ch.take(i + 1).last() == o@);
        }
        b = b + o.boundary_penalty;
        f = f + o.field_penalty;
        if i > 0 {
            if o.start < start {
                start = o.start;
            }
            if o.end > end {
                end = o.end;
            }
        }
        i += 1;
    }
    proof {
        assert(ch.take(n as int) =~= ch);
        lemma_start_le_end(ch);
    }
    SearchScore {
        order_penalty: 1 + inversions_found,
        boundary_penalty: b,
        field_penalty: f,
        span: end.saturating_sub(start),
        start: start,
    }
}

/// The score of `fields` against the query `terms`.
pub fn search_score_fields(fields: &Vec<SearchField>, terms: &Vec<SearchTerm>, require_non_parent: bool) -> (r: Option<SearchScore>)
    requires
        fields_wf(fields@),
        terms_wf(terms@),
    ensures
        score_view(r) == score_spec(fields_spec(fields@), terms_spec(terms@), require_non_parent),
{
    let matches_by_term = occurrences_by_term(fields, terms);
    let ghost occs = occs_of(matches_by_term@);
    let n = matches_by_term.len();
    if n == 0 {
        return None;
    }
    let mut t: usize = 0;
    while t < n
        invariant
            t <= n,
            n == matches_by_term@.len(),
            occs == occs_of(matches_by_term@),
            occs == occs_for(fields_spec(fields@), terms_spec(terms@)),
            forall|q: int| 0 <= q < t ==> (#[trigger] occs[q]).len() != 0,
        decreases n - t,
    {
        assert(occs[t as int] == occ_view(matches_by_term@[t as int]@));
        if matches_by_term[t].len() == 0 {
            assert(some_term_unmatched(occs));
            return None;
        }
        t += 1;
    }
    assert(!some_term_unmatched(occs));
    if require_non_parent {
        let mut found = false;
        let mut t: usize = 0;
        while t < n && !found
            invariant
                t <= n,
                n == matches_by_term@.len(),
                occs == occs_of(matches_by_term@),
                found ==> some_non_parent(occs),
                !found ==> forall|q: int, i: int| 0 <= q < t && 0 <= i < occs[q].len() ==> (#[trigger] occs[q][i]).is_parent,
            decreases n - t,
        {
            let os = &matches_by_term[t];
            assert(occs[t as int] == occ_view(os@));
            let m = os.len();
            let mut i: usize = 0;
            while i < m && !found
                invariant
                    i <= m,
                    m == os@.len(),
                    t < n,
                    n == matches_by_term@.len(),
                    occs == occs_of(matches_by_term@),
                    occs[t as int] == occ_view(os@),
                    found ==> some_non_parent(occs),
                    !found ==> forall|q: int, k: int| 0 <= q < t && 0 <= k < occs[q].len() ==> (#[trigger] occs[q][k]).is_parent,
                    !found ==> forall|k: int| 0 <= k < i ==> (#[trigger] occs[t as int][k]).is_parent,
                decreases m - i,
            {
                assert(occs[t as int][i as int] == os@[i as int]@);
                if !os[i].is_parent {
                    found = true;
                }
                i += 1;
            }
            t += 1;
        }
        if !found {
            return None;
        }
    }
    proof {
        lemma_sane_fits(occs);
    }
    match best_ordered_state(&matches_by_term, require_non_parent) {
        Some(state) => {
            proof {
                let k = min_chain_key(occs, require_non_parent);
                assert(is_min_key(occs, require_non_parent, state_key(state)));
                assert(is_min_key(occs, require_non_parent, k));
                let c1 = choose|c: Seq<int>| #[trigger] full_chain(occs, c, require_non_parent) && chain_key(occs, c) == k;
                let c2 = choose|c: Seq<int>| #[trigger] full_chain(occs, c, require_non_parent) && chain_key(occs, c) == state_key(state);
                assert(key_le(k, chain_key(occs, c2)));
                assert(key_le(state_key(state), chain_key(occs, c1)));
                lemma_key_le_antisym(k, state_key(state));
            }
            Some(SearchScore {
                order_penalty: 0,
                boundary_penalty: state.boundary_penalty,
                field_penalty: state.field_penalty,
                span: state.end.saturating_sub(state.first_start),
                start: state.first_start,
            })
        },
        None => Some(fallback_score_of(&matches_by_term, require_non_parent)),
    }
}

} // verus!
