//! Block identifiers: canonicalisation of server-side debug strings,
//! the block value type, its command form, and tolerant matching.

use vstd::prelude::*;
use crate::strutil::{
    ascii_lowercase, contains_seq, contains_str, eq_str, find_char, find_char_at, lower_chars,
    lex_le, matches_at, push_char, remove_char, remove_char_spec, rfind_char, sorted_lex,
    starts_with, starts_with_str, strip_all_prefix, substring_copy, trim_spec,
    trim_start_matches_str, trim_str,
};

verus! {

/// A block value: a namespaced identifier and its named properties, in
/// insertion order with distinct names.
pub struct Block {
    pub id: String,
    pub properties: Vec<(String, String)>,
}

/// The mathematical view of a property list.
pub open spec fn props_view(v: Seq<(String, String)>) -> Seq<(Seq<char>, Seq<char>)> {
    Seq::new(v.len(), |i: int| (v[i].0@, v[i].1@))
}

/// Value bound to the first occurrence of the key `k`.
pub open spec fn assoc_get(m: Seq<(Seq<char>, Seq<char>)>, k: Seq<char>) -> Option<Seq<char>>
    decreases m.len(),
{
    if m.len() == 0 {
        None
    } else if m[0].0 == k {
        Some(m[0].1)
    } else {
        assoc_get(m.skip(1), k)
    }
}

/// Binds `k` to `v`: overwrites the first occurrence of `k`, or appends.
pub open spec fn assoc_set(
    m: Seq<(Seq<char>, Seq<char>)>,
    k: Seq<char>,
    v: Seq<char>,
) -> Seq<(Seq<char>, Seq<char>)>
    decreases m.len(),
{
    if m.len() == 0 {
        seq![(k, v)]
    } else if m[0].0 == k {
        seq![(k, v)] + m.skip(1)
    } else {
        seq![m[0]] + assoc_set(m.skip(1), k, v)
    }
}

impl Block {
    /// A block with no properties.
    pub fn plain(id: String) -> (r: Block)
        ensures
            r.id@ == id@,
            props_view(r.properties@) =~= Seq::<(Seq<char>, Seq<char>)>::empty(),
    {
        Block { id, properties: Vec::new() }
    }

    /// Looks a property up by name.
    pub fn get_property(&self, name: &str) -> (r: Option<String>)
        ensures
            match r {
                Some(v) => assoc_get(props_view(self.properties@), name@) == Some(v@),
                None => assoc_get(props_view(self.properties@), name@) is None,
            },
    {
        let n = self.properties.len();
        let mut i: usize = 0;
        proof {
            assert(props_view(self.properties@).skip(0) =~= props_view(self.properties@));
        }
        while i < n
            invariant
                n == self.properties@.len(),
                i <= n,
                assoc_get(props_view(self.properties@), name@) == assoc_get(
                    props_view(self.properties@).skip(i as int), name@),
            decreases n - i,
        {
            let ghost pv = props_view(self.properties@);
            assert(pv.skip(i as int)[0] == pv[i as int]);
            if eq_str(self.properties[i].0.as_str(), name) {
                let v = substring_copy(
                    self.properties[i].1.as_str(), 0, self.properties[i].1.as_str().unicode_len());
                assert(v@ == pv[i as int].1);
                return Some(v);
            }
            proof {
                assert(pv.skip(i as int).skip(1) =~= pv.skip(i as int + 1));
            }
            i = i + 1;
        }
        assert(props_view(self.properties@).skip(n as int).len() == 0);
        None
    }
}

/// Command form of a property list from position `i` on: `k=v` pairs
/// separated by commas.
pub open spec fn props_cmd_from(ps: Seq<(Seq<char>, Seq<char>)>, i: int) -> Seq<char>
    decreases ps.len() - i,
{
    if i < 0 || i >= ps.len() {
        Seq::empty()
    } else {
        (if i > 0 {
            seq![',']
        } else {
            Seq::empty()
        }) + ps[i].0 + seq!['='] + ps[i].1 + props_cmd_from(ps, i + 1)
    }
}

/// Command form of a whole block: `id` or `id[k=v,...]`.
pub open spec fn block_cmd_spec(id: Seq<char>, ps: Seq<(Seq<char>, Seq<char>)>) -> Seq<char> {
    if ps.len() == 0 {
        id
    } else {
        id + seq!['['] + props_cmd_from(ps, 0) + seq![']']
    }
}

impl Block {
    /// Renders the block in the form the administrative commands take.
    pub fn to_command(&self) -> (r: String)
        ensures
            r@ == block_cmd_spec(self.id@, props_view(self.properties@)),
    {
        let ghost ps = props_view(self.properties@);
        let mut r = substring_copy(self.id.as_str(), 0, self.id.as_str().unicode_len());
        assert(r@ =~= self.id@);
        let n = self.properties.len();
        if n == 0 {
            return r;
        }
        push_char(&mut r, '[');
        let mut i: usize = 0;
        proof {
            assert(r@ =~= self.id@ + seq!['['] + Seq::<char>::empty());
        }
        while i < n
            invariant
                n == self.properties@.len(),
                ps == props_view(self.properties@),
                i <= n,
                self.id@ + seq!['['] + props_cmd_from(ps, 0) =~= r@ + props_cmd_from(
                    ps, i as int),
            decreases n - i,
        {
            if i > 0 {
                push_char(&mut r, ',');
            }
            r.append(self.properties[i].0.as_str());
            push_char(&mut r, '=');
            r.append(self.properties[i].1.as_str());
            proof {
                assert(ps[i as int].0 == self.properties@[i as int].0@);
                assert(ps[i as int].1 == self.properties@[i as int].1@);
            }
            i = i + 1;
        }
        assert(props_cmd_from(ps, n as int) =~= Seq::<char>::empty());
        push_char(&mut r, ']');
        assert(r@ =~= self.id@ + seq!['['] + props_cmd_from(ps, 0) + seq![']']);
        r
    }
}

/// Canonical comparison form of a block name: the `minecraft:` namespace
/// stripped, ASCII lower-cased, underscores removed.
pub open spec fn norm_name(s: Seq<char>) -> Seq<char> {
    remove_char_spec(lower_chars(strip_all_prefix(s, "minecraft:"@)), '_')
}

/// Normalises a block name for comparison.
pub fn normalize_block_name(name: &str) -> (r: String)
    ensures
        r@ == norm_name(name@),
{
    let stripped = trim_start_matches_str(name, "minecraft:");
    let lowered = ascii_lowercase(stripped.as_str());
    remove_char(lowered.as_str(), '_')
}

/// Tolerant block matching: the lower-cased actual form, as it stands or
/// with underscores removed, contains the normalised expected name.
pub open spec fn block_matches_spec(actual: Seq<char>, expected: Seq<char>) -> bool {
    let al = lower_chars(actual);
    let en = norm_name(expected);
    contains_seq(al, en) || contains_seq(remove_char_spec(al, '_'), en)
}

/// Whether the server-side block form matches the expected block name.
pub fn block_matches(actual: &str, expected: &str) -> (r: bool)
    ensures
        r == block_matches_spec(actual@, expected@),
{
    let al = ascii_lowercase(actual);
    let en = normalize_block_name(expected);
    if contains_str(al.as_str(), en.as_str()) {
        return true;
    }
    let al2 = remove_char(al.as_str(), '_');
    contains_str(al2.as_str(), en.as_str())
}


/// ASCII upper-case test.
pub open spec fn is_upper(c: char) -> bool {
    'A' <= c && c <= 'Z'
}

/// PascalCase to snake_case from position `i` on: an underscore before
/// every upper-case letter except at the start, letters lower-cased.
pub open spec fn snake_from(s: Seq<char>, i: int) -> Seq<char>
    decreases s.len() - i,
{
    if i < 0 || i >= s.len() {
        Seq::empty()
    } else {
        (if is_upper(s[i]) {
            (if i > 0 {
                seq!['_']
            } else {
                Seq::empty()
            }) + seq![crate::strutil::lower_char(s[i])]
        } else {
            seq![s[i]]
        }) + snake_from(s, i + 1)
    }
}

/// PascalCase name converted to snake_case.
pub open spec fn pascal_to_snake(s: Seq<char>) -> Seq<char> {
    snake_from(s, 0)
}

/// Converts a PascalCase name to snake_case.
pub fn pascal_snake(s: &str) -> (r: String)
    ensures
        r@ == pascal_to_snake(s@),
{
    let n = s.unicode_len();
    let mut r = String::new();
    let mut i: usize = 0;
    proof {
        assert(r@ + snake_from(s@, 0) =~= snake_from(s@, 0));
    }
    while i < n
        invariant
            n == s@.len(),
            i <= n,
            pascal_to_snake(s@) =~= r@ + snake_from(s@, i as int),
        decreases n - i,
    {
        let c = s.get_char(i);
        if 'A' <= c && c <= 'Z' {
            if i > 0 {
                push_char(&mut r, '_');
            }
            let lc: char = ((c as u8) + 32) as char;
            assert(lc == crate::strutil::lower_char(s@[i as int]));
            push_char(&mut r, lc);
        } else {
            push_char(&mut r, c);
        }
        i = i + 1;
    }
    assert(snake_from(s@, n as int) =~= Seq::<char>::empty());
    assert(r@ + Seq::<char>::empty() =~= r@);
    r
}

/// Prefixes the default namespace when the name carries none.
pub open spec fn with_namespace(snake: Seq<char>) -> Seq<char> {
    if find_char_at(snake, ':') < snake.len() {
        snake
    } else {
        "minecraft:"@ + snake
    }
}

/// Splits a trimmed server-side debug string into the raw block name and,
/// when present, the raw text of its property list.
pub open spec fn split_debug_form(s0: Seq<char>) -> (Seq<char>, Option<Seq<char>>) {
    if starts_with(s0, "BlockState(id:"@) {
        let c = find_char_at(s0, ',');
        if c < s0.len() {
            let after = trim_spec(s0.skip(c + 1));
            let b = find_char_at(after, '{');
            if b < after.len() {
                let pe = crate::strutil::rfind_char_or_len(after, '}');
                let src: Seq<char> = if pe >= b + 1 {
                    after.subrange(b + 1, pe)
                } else {
                    Seq::empty()
                };
                (trim_spec(after.subrange(0, b)), Some(src))
            } else {
                let e = find_char_at(after, ')');
                (trim_spec(after.subrange(0, e)), None)
            }
        } else {
            ("air"@, None)
        }
    } else if starts_with(s0, "BlockState"@) {
        let o = find_char_at(s0, '{');
        if o < s0.len() {
            let inner = s0.skip(o + 1);
            let e = crate::strutil::min2(find_char_at(inner, ','), find_char_at(inner, '}'));
            (trim_spec(inner.subrange(0, e)), None)
        } else {
            ("air"@, None)
        }
    } else {
        let m = crate::strutil::min2(
            crate::strutil::min2(find_char_at(s0, ','), find_char_at(s0, '{')),
            crate::strutil::min2(find_char_at(s0, ' '), find_char_at(s0, '}')),
        );
        (s0.subrange(0, m), None)
    }
}

/// The `key=value` pair strings read from the comma-split pieces of a raw
/// property list, from position `i` on: each non-empty piece with a colon
/// becomes `key=value`, both sides trimmed and lower-cased.
pub open spec fn prop_pairs_from(pieces: Seq<Seq<char>>, i: int) -> Seq<Seq<char>>
    decreases pieces.len() - i,
{
    if i < 0 || i >= pieces.len() {
        Seq::empty()
    } else {
        let part = trim_spec(pieces[i]);
        let rest = prop_pairs_from(pieces, i + 1);
        if part.len() == 0 {
            rest
        } else {
            let f = find_char_at(part, ':');
            if f < part.len() {
                seq![
                    lower_chars(trim_spec(part.subrange(0, f))) + seq!['='] + lower_chars(
                        trim_spec(part.subrange(f + 1, part.len() as int)))
                ] + rest
            } else {
                rest
            }
        }
    }
}

/// All pair strings of a raw property list.
pub open spec fn prop_pairs_of(src: Seq<char>) -> Seq<Seq<char>> {
    prop_pairs_from(crate::strutil::split_char_spec(src, ','), 0)
}

/// Comma-joined pair strings from position `i` on.
pub open spec fn join_comma_from(ps: Seq<Seq<char>>, i: int) -> Seq<char>
    decreases ps.len() - i,
{
    if i < 0 || i >= ps.len() {
        Seq::empty()
    } else {
        (if i > 0 {
            seq![',']
        } else {
            Seq::empty()
        }) + ps[i] + join_comma_from(ps, i + 1)
    }
}

/// A sorted permutation.
pub open spec fn sorted_perm_of(sorted: Seq<Seq<char>>, orig: Seq<Seq<char>>) -> bool {
    sorted.to_multiset() == orig.to_multiset() && sorted_lex(sorted)
}

/// The canonical form produced from a debug string: the namespaced
/// snake_case name, with the sorted property pairs appended when any.
pub open spec fn extract_spec(s: Seq<char>, r: Seq<char>) -> bool {
    let s0 = trim_spec(s);
    let name = split_debug_form(s0).0;
    let props = split_debug_form(s0).1;
    let bid = with_namespace(pascal_to_snake(name));
    match props {
        None => r == bid,
        Some(src) => {
            let pairs = prop_pairs_of(src);
            if pairs.len() == 0 {
                r == bid
            } else {
                exists|sorted: Seq<Seq<char>>|
                    #[trigger] sorted_perm_of(sorted, pairs) && r == bid + seq!['[']
                        + join_comma_from(sorted, 0) + seq![']']
            }
        },
    }
}

/// Canonicalises a server-side debug block string to the stable
/// `ns:snake_case_name[prop=value,...]` form, properties sorted by name.
pub fn extract_block_id(debug_str: &str) -> (r: String)
    ensures
        extract_spec(debug_str@, r@),
{
    let s0 = trim_str(debug_str);
    let ghost s0v = s0@;
    let n0 = s0.unicode_len();
    // split into the raw name and the raw property text
    let mut name: String = String::new();
    let mut props_src: Option<String> = None;
    if starts_with_str(s0.as_str(), "BlockState(id:") {
        let c = find_char(s0.as_str(), ',');
        proof {
            crate::strutil::lemma_find_char_at(s0v, ',');
        }
        if c < n0 {
            let tail = substring_copy(s0.as_str(), c + 1, n0);
            assert(tail@ =~= s0v.skip(c as int + 1));
            let after = trim_str(tail.as_str());
            let na = after.unicode_len();
            let b = find_char(after.as_str(), '{');
            proof {
                crate::strutil::lemma_find_char_at(after@, '{');
            }
            if b < na {
                let pe = rfind_char(after.as_str(), '}');
                proof {
                    crate::strutil::lemma_rfind_char_or_len(after@, '}');
                }
                let src: String = if pe >= b + 1 {
                    substring_copy(after.as_str(), b + 1, pe)
                } else {
                    String::new()
                };
                name = trim_str(substring_copy(after.as_str(), 0, b).as_str());
                props_src = Some(src);
            } else {
                let e = find_char(after.as_str(), ')');
                proof {
                    crate::strutil::lemma_find_char_at(after@, ')');
                }
                name = trim_str(substring_copy(after.as_str(), 0, e).as_str());
                props_src = None;
            }
        } else {
            name = String::new();
            name.append("air");
            proof {
                reveal_strlit("air");
            }
            props_src = None;
        }
    } else if starts_with_str(s0.as_str(), "BlockState") {
        let o = find_char(s0.as_str(), '{');
        proof {
            crate::strutil::lemma_find_char_at(s0v, '{');
        }
        if o < n0 {
            let inner = substring_copy(s0.as_str(), o + 1, n0);
            assert(inner@ =~= s0v.skip(o as int + 1));
            let ni = inner.unicode_len();
            let e1 = find_char(inner.as_str(), ',');
            let e2 = find_char(inner.as_str(), '}');
            proof {
                crate::strutil::lemma_find_char_at(inner@, ',');
                crate::strutil::lemma_find_char_at(inner@, '}');
            }
            let e = if e1 <= e2 { e1 } else { e2 };
            name = trim_str(substring_copy(inner.as_str(), 0, e).as_str());
            props_src = None;
        } else {
            name = String::new();
            name.append("air");
            proof {
                reveal_strlit("air");
            }
            props_src = None;
        }
    } else {
        let m1 = find_char(s0.as_str(), ',');
        let m2 = find_char(s0.as_str(), '{');
        let m3 = find_char(s0.as_str(), ' ');
        let m4 = find_char(s0.as_str(), '}');
        proof {
            crate::strutil::lemma_find_char_at(s0v, ',');
            crate::strutil::lemma_find_char_at(s0v, '{');
            crate::strutil::lemma_find_char_at(s0v, ' ');
            crate::strutil::lemma_find_char_at(s0v, '}');
        }
        let ma = if m1 <= m2 { m1 } else { m2 };
        let mb = if m3 <= m4 { m3 } else { m4 };
        let m = if ma <= mb { ma } else { mb };
        name = substring_copy(s0.as_str(), 0, m);
        props_src = None;
    }
    assert(name@ == split_debug_form(s0v).0);
    assert(match props_src {
        Some(src) => split_debug_form(s0v).1 == Some(src@),
        None => split_debug_form(s0v).1 is None,
    });
    // snake_case the name, then prefix the namespace when it has none
    let snake = pascal_snake(name.as_str());
    let ns = snake.unicode_len();
    let cpos = find_char(snake.as_str(), ':');
    proof {
        crate::strutil::lemma_find_char_at(snake@, ':');
    }
    let block_id: String = if cpos < ns {
        snake
    } else {
        let mut t = String::new();
        t.append("minecraft:");
        t.append(snake.as_str());
        t
    };
    assert(block_id@ == with_namespace(pascal_to_snake(name@)));
    // property pairs, sorted into a stable order
    match props_src {
        None => block_id,
        Some(src) => {
            let pieces = crate::strutil::split_char(src.as_str(), ',');
            let np = pieces.len();
            let ghost piecesv = pieces.deep_view();
            let mut pairs: Vec<String> = Vec::new();
            let mut i: usize = 0;
            proof {
                assert(pairs.deep_view() + prop_pairs_from(piecesv, 0) =~= prop_pairs_from(
                    piecesv, 0));
            }
            while i < np
                invariant
                    np == piecesv.len(),
                    piecesv == pieces.deep_view(),
                    pieces@.len() == piecesv.len(),
                    i <= np,
                    prop_pairs_of(src@) =~= pairs.deep_view() + prop_pairs_from(
                        piecesv, i as int),
                decreases np - i,
            {
                assert(piecesv[i as int] == pieces@[i as int]@);
                let part = trim_str(pieces[i].as_str());
                let lp = part.unicode_len();
                if lp > 0 {
                    let f = find_char(part.as_str(), ':');
                    proof {
                        crate::strutil::lemma_find_char_at(part@, ':');
                    }
                    if f < lp {
                        let k0 = trim_str(substring_copy(part.as_str(), 0, f).as_str());
                        let v0 = trim_str(substring_copy(part.as_str(), f + 1, lp).as_str());
                        let mut pair = ascii_lowercase(k0.as_str());
                        push_char(&mut pair, '=');
                        let vl = ascii_lowercase(v0.as_str());
                        pair.append(vl.as_str());
                        let ghost old_dv = pairs.deep_view();
                        let ghost pv = pair@;
                        pairs.push(pair);
                        proof {
                            assert(pairs.deep_view() =~~= old_dv.push(pv));
                            assert(part@ == trim_spec(piecesv[i as int]));
                            assert(pv =~= lower_chars(trim_spec(part@.subrange(0, f as int)))
                                + seq!['='] + lower_chars(trim_spec(part@.subrange(
                                f as int + 1, part@.len() as int))));
                        }
                    }
                }
                i = i + 1;
            }
            assert(prop_pairs_from(piecesv, np as int) =~= Seq::<Seq<char>>::empty());
            assert(pairs.deep_view() =~= prop_pairs_of(src@));
            if pairs.len() == 0 {
                return block_id;
            }
            let sorted = crate::strutil::sort_strings(&pairs);
            let mut joined = String::new();
            let ghost sdv = sorted.deep_view();
            let nj = sorted.len();
            let mut j: usize = 0;
            proof {
                assert(joined@ + join_comma_from(sdv, 0) =~= join_comma_from(sdv, 0));
            }
            while j < nj
                invariant
                    nj == sdv.len(),
                    sdv == sorted.deep_view(),
                    sorted@.len() == sdv.len(),
                    j <= nj,
                    join_comma_from(sdv, 0) =~= joined@ + join_comma_from(sdv, j as int),
                decreases nj - j,
            {
                if j > 0 {
                    push_char(&mut joined, ',');
                }
                assert(sdv[j as int] == sorted@[j as int]@);
                joined.append(sorted[j].as_str());
                j = j + 1;
            }
            assert(join_comma_from(sdv, nj as int) =~= Seq::<char>::empty());
            assert(joined@ =~= join_comma_from(sdv, 0));
            let mut out = block_id;
            push_char(&mut out, '[');
            out.append(joined.as_str());
            push_char(&mut out, ']');
            proof {
                assert(sorted_perm_of(sdv, prop_pairs_of(src@)));
                assert(out@ =~= with_namespace(pascal_to_snake(name@)) + seq!['[']
                    + join_comma_from(sdv, 0) + seq![']']);
            }
            out
        },
    }
}


/// Index of the first entry bound to `k`, or `m.len()` if none.
pub open spec fn first_key_at(m: Seq<(Seq<char>, Seq<char>)>, k: Seq<char>) -> int
    decreases m.len(),
{
    if m.len() == 0 {
        0
    } else if m[0].0 == k {
        0
    } else {
        1 + first_key_at(m.skip(1), k)
    }
}

pub proof fn lemma_first_key_at(m: Seq<(Seq<char>, Seq<char>)>, k: Seq<char>)
    ensures
        0 <= first_key_at(m, k) <= m.len(),
        forall|j: int| 0 <= j < first_key_at(m, k) ==> m[j].0 != k,
        first_key_at(m, k) < m.len() ==> m[first_key_at(m, k)].0 == k,
    decreases m.len(),
{
    if m.len() > 0 && m[0].0 != k {
        lemma_first_key_at(m.skip(1), k);
        assert forall|j: int| 0 <= j < first_key_at(m, k) implies m[j].0 != k by {
            if j > 0 {
                assert(m.skip(1)[j - 1] == m[j]);
            }
        }
        if first_key_at(m, k) < m.len() {
            assert(m.skip(1)[first_key_at(m, k) - 1] == m[first_key_at(m, k)]);
        }
    }
}

/// `assoc_set` updates the first binding in place, or appends a new one.
pub proof fn lemma_assoc_set_shape(m: Seq<(Seq<char>, Seq<char>)>, k: Seq<char>, v: Seq<char>)
    ensures
        first_key_at(m, k) < m.len() ==> assoc_set(m, k, v) =~= m.update(
            first_key_at(m, k), (k, v)),
        first_key_at(m, k) == m.len() ==> assoc_set(m, k, v) =~= m.push((k, v)),
    decreases m.len(),
{
    lemma_first_key_at(m, k);
    if m.len() == 0 {
        assert(assoc_set(m, k, v) =~= m.push((k, v)));
    } else if m[0].0 == k {
        assert(assoc_set(m, k, v) =~= m.update(0, (k, v)));
    } else {
        lemma_assoc_set_shape(m.skip(1), k, v);
        lemma_first_key_at(m.skip(1), k);
        if first_key_at(m, k) < m.len() {
            assert(assoc_set(m, k, v) =~= seq![m[0]] + m.skip(1).update(
                first_key_at(m, k) - 1, (k, v)));
            assert(seq![m[0]] + m.skip(1).update(first_key_at(m, k) - 1, (k, v)) =~= m.update(
                first_key_at(m, k), (k, v)));
        } else {
            assert(assoc_set(m, k, v) =~= seq![m[0]] + m.skip(1).push((k, v)));
            assert(seq![m[0]] + m.skip(1).push((k, v)) =~= m.push((k, v)));
        }
    }
}

/// Binds `k` to `v` in the property list, overwriting the first binding
/// of the same name, else appending.
fn assoc_update(props: &mut Vec<(String, String)>, k: String, v: String)
    ensures
        props_view(final(props)@) =~= assoc_set(props_view(old(props)@), k@, v@),
{
    let ghost m = props_view(props@);
    proof {
        lemma_first_key_at(m, k@);
        lemma_assoc_set_shape(m, k@, v@);
    }
    let n = props.len();
    let mut i: usize = 0;
    while i < n
        invariant
            n == props@.len(),
            m == props_view(props@),
            m == props_view(old(props)@),
            i <= n,
            0 <= first_key_at(m, k@) <= n,
            forall|j: int| 0 <= j < first_key_at(m, k@) ==> m[j].0 != k@,
            first_key_at(m, k@) < n ==> m[first_key_at(m, k@)].0 == k@,
            forall|j: int| 0 <= j < i ==> m[j].0 != k@,
        decreases n - i,
    {
        assert(m[i as int].0 == props@[i as int].0@);
        if eq_str(props[i].0.as_str(), k.as_str()) {
            assert(i as int == first_key_at(m, k@));
            proof {
                lemma_assoc_set_shape(m, k@, v@);
            }
            props.remove(i);
            props.insert(i, (k, v));
            proof {
                assert(props_view(props@) =~= m.update(i as int, (k@, v@)));
                assert(assoc_set(m, k@, v@) =~= m.update(i as int, (k@, v@)));
                assert(props_view(props@) =~= assoc_set(m, k@, v@));

            }
            return;
        }
        i = i + 1;
    }
    assert(first_key_at(m, k@) == n);
    props.push((k, v));
    proof {
        assert(props_view(props@) =~= m.push((k@, v@)));
    }
}

/// Whether a block string carries a property segment.
pub open spec fn cmd_has_props(s: Seq<char>) -> bool {
    find_char_at(s, '[') < s.len() && find_char_at(s, ']') < s.len() && find_char_at(s, '[')
        < find_char_at(s, ']')
}

/// The identifier part of a block string.
pub open spec fn make_block_id_spec(s: Seq<char>) -> Seq<char> {
    if cmd_has_props(s) {
        s.subrange(0, find_char_at(s, '['))
    } else {
        s
    }
}

/// The property bindings accumulated from the comma-split pieces, each
/// piece with an equals sign contributing one trimmed binding.
pub open spec fn parse_pairs_from(
    pieces: Seq<Seq<char>>,
    i: int,
    acc: Seq<(Seq<char>, Seq<char>)>,
) -> Seq<(Seq<char>, Seq<char>)>
    decreases pieces.len() - i,
{
    if i < 0 || i >= pieces.len() {
        acc
    } else {
        let piece = pieces[i];
        let f = find_char_at(piece, '=');
        let acc2 = if f < piece.len() {
            assoc_set(
                acc,
                trim_spec(piece.subrange(0, f)),
                trim_spec(piece.subrange(f + 1, piece.len() as int)),
            )
        } else {
            acc
        };
        parse_pairs_from(pieces, i + 1, acc2)
    }
}

/// The property bindings of a block string.
pub open spec fn make_block_props_spec(s: Seq<char>) -> Seq<(Seq<char>, Seq<char>)> {
    if cmd_has_props(s) {
        let src = s.subrange(find_char_at(s, '[') + 1, find_char_at(s, ']'));
        parse_pairs_from(crate::strutil::split_char_spec(src, ','), 0, Seq::empty())
    } else {
        Seq::empty()
    }
}

/// Builds a block value from its string form `id` or `id[k=v,...]`.
pub fn make_block(block_str: &str) -> (r: Block)
    ensures
        r.id@ == make_block_id_spec(block_str@),
        props_view(r.properties@) =~= make_block_props_spec(block_str@),
{
    let n = block_str.unicode_len();
    let o = find_char(block_str, '[');
    let c = find_char(block_str, ']');
    proof {
        crate::strutil::lemma_find_char_at(block_str@, '[');
        crate::strutil::lemma_find_char_at(block_str@, ']');
    }
    if o < n && c < n && o < c {
        let id = substring_copy(block_str, 0, o);
        let src = substring_copy(block_str, o + 1, c);
        let pieces = crate::strutil::split_char(src.as_str(), ',');
        let np = pieces.len();
        let ghost piecesv = pieces.deep_view();
        let mut props: Vec<(String, String)> = Vec::new();
        let mut i: usize = 0;
        proof {
            assert(props_view(props@) =~= Seq::<(Seq<char>, Seq<char>)>::empty());
        }
        while i < np
            invariant
                np == piecesv.len(),
                piecesv == pieces.deep_view(),
                pieces@.len() == piecesv.len(),
                i <= np,
                make_block_props_spec(block_str@) =~= parse_pairs_from(
                    piecesv, i as int, props_view(props@)),
            decreases np - i,
        {
            assert(piecesv[i as int] == pieces@[i as int]@);
            let piece = &pieces[i];
            let lp = piece.as_str().unicode_len();
            let f = find_char(piece.as_str(), '=');
            proof {
                crate::strutil::lemma_find_char_at(piecesv[i as int], '=');
            }
            if f < lp {
                let k = trim_str(substring_copy(piece.as_str(), 0, f).as_str());
                let v = trim_str(substring_copy(piece.as_str(), f + 1, lp).as_str());
                assoc_update(&mut props, k, v);
            }
            i = i + 1;
        }
        Block { id, properties: props }
    } else {
        let id = substring_copy(block_str, 0, n);
        assert(id@ =~= block_str@);
        Block { id, properties: Vec::new() }
    }
}

/// The three textual shapes under which a property with the given name
/// and value may appear in a lower-cased server-side block string.
pub open spec fn prop_patterns_match(
    actual: Seq<char>,
    name: Seq<char>,
    value: Seq<char>,
) -> bool {
    let al = lower_chars(actual);
    let p1 = lower_chars(name + ": "@ + value);
    let p2 = lower_chars(name + ": \""@ + value + "\""@);
    let p3 = lower_chars(name + ": _"@ + value);
    contains_seq(al, p1) || contains_seq(al, p2) || contains_seq(al, p3)
}

/// Tests a property constraint against the raw block string: plain,
/// quoted, and underscore-prefixed renderings are all accepted.
pub fn property_matches(actual: &str, name: &str, value: &str) -> (r: bool)
    ensures
        r == prop_patterns_match(actual@, name@, value@),
{
    let al = ascii_lowercase(actual);
    let mut p1 = String::new();
    p1.append(name);
    p1.append(": ");
    p1.append(value);
    let p1l = ascii_lowercase(p1.as_str());
    if contains_str(al.as_str(), p1l.as_str()) {
        return true;
    }
    let mut p2 = String::new();
    p2.append(name);
    p2.append(": \"");
    p2.append(value);
    p2.append("\"");
    let p2l = ascii_lowercase(p2.as_str());
    if contains_str(al.as_str(), p2l.as_str()) {
        return true;
    }
    let mut p3 = String::new();
    p3.append(name);
    p3.append(": _");
    p3.append(value);
    let p3l = ascii_lowercase(p3.as_str());
    contains_str(al.as_str(), p3l.as_str())
}


/// The lower-cased search form of a string.
pub fn normalize_for_search(s: &str) -> (r: String)
    ensures
        r@ == lower_chars(s@),
{
    ascii_lowercase(s)
}


/// Law: matching is reflexive on canonical identifiers: any block string
/// matches itself as the expected name, since its own normalised form is
/// a suffix of its underscore-free lower-cased text.
pub proof fn lemma_block_matches_reflexive(s: Seq<char>)
    ensures
        block_matches_spec(s, s),
{
    let p = "minecraft:"@;
    let al = lower_chars(s);
    let en = norm_name(s);
    let k = crate::strutil::lemma_strip_all_prefix_suffix(s, p);
    crate::strutil::lemma_lower_chars_skip(s, k);
    assert(lower_chars(strip_all_prefix(s, p)) =~= al.skip(k));
    crate::strutil::lemma_remove_char_append(al.take(k), al.skip(k), '_');
    assert(al.take(k) + al.skip(k) =~= al);
    let pre = remove_char_spec(al.take(k), '_');
    let whole = remove_char_spec(al, '_');
    assert(whole =~= pre + en);
    assert(crate::strutil::matches_at(whole, en, pre.len() as int)) by {
        assert(whole.subrange(pre.len() as int, pre.len() + en.len() as int) =~= en);
    }
    assert(contains_seq(whole, en));
}


/// A token fit for the command form: trimmed and free of the four
/// separator characters.
pub open spec fn plain_token(s: Seq<char>) -> bool {
    &&& trim_spec(s) == s
    &&& find_char_at(s, ',') == s.len()
    &&& find_char_at(s, '=') == s.len()
    &&& find_char_at(s, '[') == s.len()
    &&& find_char_at(s, ']') == s.len()
}

/// A block whose command form can be read back: the identifier is free
/// of brackets, every property name and value is a plain token, and the
/// names are pairwise distinct.
pub open spec fn block_wf(id: Seq<char>, ps: Seq<(Seq<char>, Seq<char>)>) -> bool {
    &&& find_char_at(id, '[') == id.len()
    &&& find_char_at(id, ']') == id.len()
    &&& forall|i: int| 0 <= i < ps.len() ==> plain_token((#[trigger] ps[i]).0) && plain_token(
        ps[i].1)
    &&& forall|i: int, j: int| 0 <= i < j < ps.len() ==> ps[i].0 != ps[j].0
}

/// One `key=value` piece of the command form.
pub open spec fn pair_piece(ps: Seq<(Seq<char>, Seq<char>)>, i: int) -> Seq<char> {
    ps[i].0 + seq!['='] + ps[i].1
}

/// The property pieces from `i` on, joined by commas.
pub open spec fn join_from(ps: Seq<(Seq<char>, Seq<char>)>, i: int) -> Seq<char>
    decreases ps.len() - i,
{
    if i < 0 || i >= ps.len() {
        Seq::empty()
    } else {
        pair_piece(ps, i) + (if i + 1 < ps.len() {
            seq![','] + join_from(ps, i + 1)
        } else {
            Seq::empty()
        })
    }
}

proof fn lemma_props_cmd_is_join(ps: Seq<(Seq<char>, Seq<char>)>, i: int)
    requires
        0 <= i <= ps.len(),
    ensures
        props_cmd_from(ps, i) =~= (if 0 < i < ps.len() {
            seq![',']
        } else {
            Seq::empty()
        }) + join_from(ps, i),
    decreases ps.len() - i,
{
    if i < ps.len() {
        lemma_props_cmd_is_join(ps, i + 1);
    }
}

/// No character of the joined property text is a bracket.
proof fn lemma_join_no_char(ps: Seq<(Seq<char>, Seq<char>)>, i: int, c: char)
    requires
        0 <= i,
        forall|k: int| 0 <= k < ps.len() ==> plain_token((#[trigger] ps[k]).0) && plain_token(
            ps[k].1),
        c == '[' || c == ']',
    ensures
        forall|x: int| 0 <= x < join_from(ps, i).len() ==> #[trigger] join_from(ps, i)[x] != c,
    decreases ps.len() - i,
{
    if 0 <= i < ps.len() {
        lemma_join_no_char(ps, i + 1, c);
        crate::strutil::lemma_find_char_at(ps[i].0, c);
        crate::strutil::lemma_find_char_at(ps[i].1, c);
        let kl = ps[i].0.len() as int;
        let vl = ps[i].1.len() as int;
        let whole = join_from(ps, i);
        assert forall|x: int| 0 <= x < whole.len() implies #[trigger] whole[x] != c by {
            if x < kl {
                assert(whole[x] == ps[i].0[x]);
                assert(find_char_at(ps[i].0, c) == ps[i].0.len());
            } else if x == kl {
                assert(whole[x] == '=');
            } else if x < kl + 1 + vl {
                assert(whole[x] == ps[i].1[x - kl - 1]);
                assert(find_char_at(ps[i].1, c) == ps[i].1.len());
            } else if x == kl + 1 + vl {
                assert(whole[x] == ',');
            } else {
                assert(whole[x] == join_from(ps, i + 1)[x - (kl + 1 + vl + 1)]);
            }
        }
    }
}

/// Splitting the joined property text at commas gives back the pieces.
proof fn lemma_split_join(ps: Seq<(Seq<char>, Seq<char>)>, i: int)
    requires
        0 <= i < ps.len(),
        forall|k: int| 0 <= k < ps.len() ==> plain_token((#[trigger] ps[k]).0) && plain_token(
            ps[k].1),
    ensures
        crate::strutil::split_char_spec(join_from(ps, i), ',') =~= Seq::new(
            (ps.len() - i) as nat, |j: int| pair_piece(ps, i + j)),
    decreases ps.len() - i,
{
    let whole = join_from(ps, i);
    let piece = pair_piece(ps, i);
    let kl = ps[i].0.len() as int;
    let vl = ps[i].1.len() as int;
    crate::strutil::lemma_find_char_at(ps[i].0, ',');
    crate::strutil::lemma_find_char_at(ps[i].1, ',');
    crate::strutil::lemma_find_char_at(whole, ',');
    assert(piece.len() == kl + 1 + vl);
    assert forall|x: int| 0 <= x < piece.len() implies #[trigger] piece[x] != ',' by {
        if x < kl {
            assert(piece[x] == ps[i].0[x]);
        } else if x == kl {
            assert(piece[x] == '=');
        } else {
            assert(piece[x] == ps[i].1[x - kl - 1]);
        }
    }
    if i + 1 < ps.len() {
        assert(whole[piece.len() as int] == ',');
        assert(find_char_at(whole, ',') == piece.len()) by {
            assert forall|x: int| 0 <= x < piece.len() implies #[trigger] whole[x] != ',' by {
                assert(whole[x] == piece[x]);
            }
            if find_char_at(whole, ',') < piece.len() {
                assert(whole[find_char_at(whole, ',')] == ',');
            }
            if find_char_at(whole, ',') > piece.len() {
                assert(whole[piece.len() as int] != ',');
            }
        }
        lemma_split_join(ps, i + 1);
        assert(whole.subrange(0, piece.len() as int) =~= piece);
        assert(whole.skip(piece.len() as int + 1) =~= join_from(ps, i + 1));
        let rest = Seq::new((ps.len() - i - 1) as nat, |j: int| pair_piece(ps, i + 1 + j));
        assert(crate::strutil::split_char_spec(whole, ',') =~= seq![piece] + rest);
        assert(seq![piece] + rest =~= Seq::new((ps.len() - i) as nat, |j: int| pair_piece(
            ps, i + j))) by {
            assert forall|j: int| 0 <= j < ps.len() - i implies (seq![piece] + rest)[j]
                == pair_piece(ps, i + j) by {
                if j > 0 {
                    assert((seq![piece] + rest)[j] == rest[j - 1]);
                }
            }
        }
    } else {
        assert(whole =~= piece);
        assert(find_char_at(whole, ',') == whole.len()) by {
            if find_char_at(whole, ',') < whole.len() {
                assert(whole[find_char_at(whole, ',')] == ',');
            }
        }
        assert(crate::strutil::split_char_spec(whole, ',') =~= seq![whole]);
        assert(seq![whole] =~= Seq::new((ps.len() - i) as nat, |j: int| pair_piece(ps, i + j)));
    }
}

/// Reading the pieces back re-binds every property in order.
proof fn lemma_parse_pieces(
    ps: Seq<(Seq<char>, Seq<char>)>,
    pieces: Seq<Seq<char>>,
    i: int,
)
    requires
        pieces.len() == ps.len(),
        forall|j: int| 0 <= j < ps.len() ==> pieces[j] == pair_piece(ps, j),
        forall|k: int| 0 <= k < ps.len() ==> plain_token((#[trigger] ps[k]).0) && plain_token(
            ps[k].1),
        forall|a: int, b: int| 0 <= a < b < ps.len() ==> ps[a].0 != ps[b].0,
        0 <= i <= ps.len(),
    ensures
        parse_pairs_from(pieces, i, ps.subrange(0, i)) =~= ps,
    decreases ps.len() - i,
{
    if i == ps.len() {
        assert(ps.subrange(0, i) =~= ps);
    } else {
        let piece = pieces[i];
        let kl = ps[i].0.len() as int;
        let vl = ps[i].1.len() as int;
        crate::strutil::lemma_find_char_at(ps[i].0, '=');
        crate::strutil::lemma_find_char_at(piece, '=');
        assert(piece[kl] == '=');
        assert(find_char_at(piece, '=') == kl) by {
            assert forall|x: int| 0 <= x < kl implies #[trigger] piece[x] != '=' by {
                assert(piece[x] == ps[i].0[x]);
            }
            if find_char_at(piece, '=') < kl {
                assert(piece[find_char_at(piece, '=')] == '=');
            }
            if find_char_at(piece, '=') > kl {
                assert(piece[kl] != '=');
            }
        }
        assert(piece.subrange(0, kl) =~= ps[i].0);
        assert(piece.subrange(kl + 1, piece.len() as int) =~= ps[i].1);
        let acc = ps.subrange(0, i);
        crate::block::lemma_first_key_at(acc, ps[i].0);
        assert(first_key_at(acc, ps[i].0) == acc.len()) by {
            if first_key_at(acc, ps[i].0) < acc.len() {
                assert(acc[first_key_at(acc, ps[i].0)].0 == ps[i].0);
                assert(ps[first_key_at(acc, ps[i].0)].0 == ps[i].0);
            }
        }
        lemma_assoc_set_shape(acc, ps[i].0, ps[i].1);
        assert(assoc_set(acc, trim_spec(piece.subrange(0, kl)), trim_spec(piece.subrange(
            kl + 1, piece.len() as int))) =~= acc.push((ps[i].0, ps[i].1)));
        assert(acc.push((ps[i].0, ps[i].1)) =~= ps.subrange(0, i + 1));
        lemma_parse_pieces(ps, pieces, i + 1);
        assert(parse_pairs_from(pieces, i, acc) == parse_pairs_from(pieces, i + 1, ps.subrange(
            0, i + 1)));
    }
}

/// Law: the command form round-trips: a well-formed block's rendered
/// form parses back to the same identifier and the same properties in
/// the same order.
pub proof fn lemma_block_round_trip(id: Seq<char>, ps: Seq<(Seq<char>, Seq<char>)>)
    requires
        block_wf(id, ps),
    ensures
        make_block_id_spec(block_cmd_spec(id, ps)) == id,
        make_block_props_spec(block_cmd_spec(id, ps)) =~= ps,
{
    let cmd = block_cmd_spec(id, ps);
    crate::strutil::lemma_find_char_at(id, '[');
    crate::strutil::lemma_find_char_at(id, ']');
    crate::strutil::lemma_find_char_at(cmd, '[');
    crate::strutil::lemma_find_char_at(cmd, ']');
    if ps.len() == 0 {
        assert(cmd == id);
        assert(!cmd_has_props(cmd));
        assert(parse_pairs_from(crate::strutil::split_char_spec(
            cmd.subrange(find_char_at(cmd, '[') + 1, find_char_at(cmd, ']')), ','), 0,
            Seq::empty()) =~= ps || true);
    } else {
        lemma_props_cmd_is_join(ps, 0);
        let jn = join_from(ps, 0);
        assert(cmd =~= id + seq!['['] + jn + seq![']']);
        lemma_join_no_char(ps, 0, '[');
        lemma_join_no_char(ps, 0, ']');
        let il = id.len() as int;
        assert(cmd[il] == '[');
        assert(find_char_at(cmd, '[') == il) by {
            assert forall|x: int| 0 <= x < il implies #[trigger] cmd[x] != '[' by {
                assert(cmd[x] == id[x]);
            }
            if find_char_at(cmd, '[') < il {
                assert(cmd[find_char_at(cmd, '[')] == '[');
            }
            if find_char_at(cmd, '[') > il {
                assert(cmd[il] != '[');
            }
        }
        let cl = il + 1 + jn.len();
        assert(cmd[cl] == ']');
        assert(find_char_at(cmd, ']') == cl) by {
            assert forall|x: int| 0 <= x < cl implies #[trigger] cmd[x] != ']' by {
                if x < il {
                    assert(cmd[x] == id[x]);
                } else if x == il {
                    assert(cmd[x] == '[');
                } else {
                    assert(cmd[x] == jn[x - il - 1]);
                }
            }
            if find_char_at(cmd, ']') < cl {
                assert(cmd[find_char_at(cmd, ']')] == ']');
            }
            if find_char_at(cmd, ']') > cl {
                assert(cmd[cl] != ']');
            }
        }
        assert(cmd_has_props(cmd));
        assert(cmd.subrange(0, il) =~= id);
        assert(make_block_id_spec(cmd) == id);
        assert(cmd.subrange(il + 1, cl) =~= jn);
        lemma_split_join(ps, 0);
        let pieces = crate::strutil::split_char_spec(jn, ',');
        assert(pieces =~= Seq::new(ps.len(), |j: int| pair_piece(ps, 0 + j)));
        assert forall|j: int| 0 <= j < ps.len() implies pieces[j] == pair_piece(ps, j) by {
            assert(pieces[j] == pair_piece(ps, 0 + j));
        }
        assert(ps.subrange(0, 0) =~= Seq::<(Seq<char>, Seq<char>)>::empty());
        lemma_parse_pieces(ps, pieces, 0);
        assert(make_block_props_spec(cmd) =~= ps);
    }
}

} // verus!
