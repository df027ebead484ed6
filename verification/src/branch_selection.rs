//! Deciding whether a dotted key path is selected by include patterns.
//!
//! A key such as `main.nested-key` and a pattern such as `main.*` are both split at
//! every `.` into segments. The key matches the pattern when, for each position that
//! both have, the pattern's segment is `*` or equals the key's segment. Positions past
//! the shorter of the two are not compared, so `main` matches `main.nested-key` and
//! `main.nested-key` matches `main`.

use vstd::prelude::*;

verus! {

/// The segments of `s` between the `.` characters, in order; as `str::split('.')`
/// gives them: the empty string has one empty segment, and each `.` starts a new one.
pub open spec fn split_dots(s: Seq<char>) -> Seq<Seq<char>>
    decreases s.len(),
{
    if s.len() == 0 {
        seq![Seq::<char>::empty()]
    } else {
        let segs = split_dots(s.drop_last());
        if s.last() == '.' {
            segs.push(Seq::<char>::empty())
        } else {
            segs.update(segs.len() - 1, segs.last().push(s.last()))
        }
    }
}

/// One segment of a pattern selects one segment of a key: `*` selects any segment,
/// any other pattern segment selects only an equal one.
pub open spec fn segment_selected(key_segment: Seq<char>, pattern_segment: Seq<char>) -> bool {
    pattern_segment == seq!['*'] || key_segment == pattern_segment
}

/// `key` matches `pattern`: at every segment position present in both, the pattern's
/// segment selects the key's segment.
pub open spec fn key_matches(key: Seq<char>, pattern: Seq<char>) -> bool {
    let ks = split_dots(key);
    let ps = split_dots(pattern);
    forall|i: int|
        0 <= i < ks.len() && 0 <= i < ps.len() ==> segment_selected(#[trigger] ks[i], ps[i])
}

/// `key` matches at least one of `patterns`.
pub open spec fn key_matches_some(patterns: Seq<Seq<char>>, key: Seq<char>) -> bool {
    exists|j: int| 0 <= j < patterns.len() && key_matches(key, #[trigger] patterns[j])
}

/// Every string has at least one segment.
pub proof fn lemma_split_dots_nonempty(s: Seq<char>)
    ensures
        split_dots(s).len() >= 1,
    decreases s.len(),
{
    if s.len() > 0 {
        lemma_split_dots_nonempty(s.drop_last());
    }
}

/// Joining two strings with a `.` joins their segment lists.
pub proof fn lemma_split_dots_join(s: Seq<char>, t: Seq<char>)
    ensures
        split_dots(s + seq!['.'] + t) == split_dots(s) + split_dots(t),
    decreases t.len(),
{
    let u = s + seq!['.'] + t;
    lemma_split_dots_nonempty(s);
    if t.len() == 0 {
        assert(u.drop_last() =~= s);
        assert(split_dots(u) =~= split_dots(s) + split_dots(t));
    } else {
        assert(u.drop_last() =~= s + seq!['.'] + t.drop_last());
        lemma_split_dots_join(s, t.drop_last());
        lemma_split_dots_nonempty(t.drop_last());
        let a = split_dots(s);
        let b = split_dots(t.drop_last());
        if t.last() == '.' {
            assert(split_dots(u) =~= (a + b).push(Seq::<char>::empty()));
            assert(split_dots(u) =~= a + split_dots(t));
        } else {
            let c = t.last();
            assert((a + b).last() == b.last());
            assert((a + b).update((a + b).len() - 1, b.last().push(c)) =~= a + b.update(
                b.len() - 1,
                b.last().push(c),
            ));
            assert(split_dots(u) =~= a + split_dots(t));
        }
    }
}

/// The pattern `*` matches every key.
pub proof fn lemma_wildcard_matches_every_key(key: Seq<char>)
    ensures
        key_matches(key, seq!['*']),
{
    let p = seq!['*'];
    assert(p.drop_last() =~= Seq::<char>::empty());
    assert(p.last() == '*');
    assert(split_dots(Seq::<char>::empty()) == seq![Seq::<char>::empty()]);
    assert(Seq::<char>::empty().push('*') =~= p);
    assert(split_dots(p) =~= seq![p]);
    lemma_split_dots_nonempty(key);
}

/// Every key, read as a pattern, matches itself.
pub proof fn lemma_key_matches_itself(key: Seq<char>)
    ensures
        key_matches(key, key),
{
}

/// A pattern that matches a key, and has no more segments than it, matches every key
/// below it: the key followed by `.` and further segments.
pub proof fn lemma_match_extends_to_subkeys(key: Seq<char>, rest: Seq<char>, pattern: Seq<char>)
    requires
        key_matches(key, pattern),
        split_dots(pattern).len() <= split_dots(key).len(),
    ensures
        key_matches(key + seq!['.'] + rest, pattern),
{
    lemma_split_dots_join(key, rest);
    let ks = split_dots(key + seq!['.'] + rest);
    assert forall|i: int| 0 <= i < ks.len() && 0 <= i < split_dots(pattern).len() implies
        segment_selected(#[trigger] ks[i], split_dots(pattern)[i]) by {
        assert(ks[i] == split_dots(key)[i]);
    }
}

/// A pattern that matches a key, and has no fewer segments than it, still matches it
/// when further segments are appended to the pattern after a `.`.
pub proof fn lemma_match_extends_to_subpatterns(
    key: Seq<char>,
    pattern: Seq<char>,
    rest: Seq<char>,
)
    requires
        key_matches(key, pattern),
        split_dots(key).len() <= split_dots(pattern).len(),
    ensures
        key_matches(key, pattern + seq!['.'] + rest),
{
    lemma_split_dots_join(pattern, rest);
    let ps = split_dots(pattern + seq!['.'] + rest);
    assert forall|i: int| 0 <= i < split_dots(key).len() && 0 <= i < ps.len() implies
        segment_selected(#[trigger] split_dots(key)[i], ps[i]) by {
        assert(ps[i] == split_dots(pattern)[i]);
    }
}

/// `s` holds no `.`: it is a single segment.
pub open spec fn dot_free(s: Seq<char>) -> bool {
    forall|i: int| 0 <= i < s.len() ==> s[i] != '.'
}

/// A string with no `.` is one segment: itself.
pub proof fn lemma_split_dots_single(s: Seq<char>)
    requires
        dot_free(s),
    ensures
        split_dots(s) == seq![s],
    decreases s.len(),
{
    if s.len() == 0 {
        assert(s =~= Seq::<char>::empty());
    } else {
        let d = s.drop_last();
        assert(dot_free(d));
        lemma_split_dots_single(d);
        assert(s[s.len() - 1] != '.');
        assert(d.push(s.last()) =~= s);
        assert(split_dots(s) =~= seq![s]);
    }
}

/// A single-segment key matches a single-segment pattern exactly when the pattern is
/// `*` or equal to the key: any other segment, a part of the key among them, does not
/// select it.
pub proof fn lemma_single_segment_match(key: Seq<char>, pattern: Seq<char>)
    requires
        dot_free(key),
        dot_free(pattern),
    ensures
        key_matches(key, pattern) <==> (pattern == seq!['*'] || key == pattern),
{
    lemma_split_dots_single(key);
    lemma_split_dots_single(pattern);
    assert(split_dots(key)[0] == key);
    assert(split_dots(pattern)[0] == pattern);
}

/// A key and a pattern whose first segments are `k1` and `p1` match exactly when `p1`
/// is `*` or equal to `k1` and the rest of the key matches the rest of the pattern.
pub proof fn lemma_leading_segment_match(
    k1: Seq<char>,
    k2: Seq<char>,
    p1: Seq<char>,
    p2: Seq<char>,
)
    requires
        dot_free(k1),
        dot_free(p1),
    ensures
        key_matches(k1 + seq!['.'] + k2, p1 + seq!['.'] + p2) <==> ((p1 == seq!['*'] || k1
            == p1) && key_matches(k2, p2)),
{
    let key = k1 + seq!['.'] + k2;
    let pattern = p1 + seq!['.'] + p2;
    lemma_split_dots_join(k1, k2);
    lemma_split_dots_join(p1, p2);
    lemma_split_dots_single(k1);
    lemma_split_dots_single(p1);
    lemma_split_dots_nonempty(k2);
    lemma_split_dots_nonempty(p2);
    let ks = split_dots(key);
    let ps = split_dots(pattern);
    let ks2 = split_dots(k2);
    let ps2 = split_dots(p2);
    assert(ks == seq![k1] + ks2);
    assert(ps == seq![p1] + ps2);
    assert(ks[0] == k1);
    assert(ps[0] == p1);
    assert(forall|i: int| 0 <= i < ks2.len() ==> #[trigger] ks[i + 1] == ks2[i]);
    assert(forall|i: int| 0 <= i < ps2.len() ==> #[trigger] ps[i + 1] == ps2[i]);
    if key_matches(key, pattern) {
        assert(segment_selected(ks[0], ps[0]));
        assert forall|i: int| 0 <= i < ks2.len() && 0 <= i < ps2.len() implies segment_selected(
            #[trigger] ks2[i],
            ps2[i],
        ) by {
            assert(segment_selected(ks[i + 1], ps[i + 1]));
        }
    }
    if (p1 == seq!['*'] || k1 == p1) && key_matches(k2, p2) {
        assert forall|i: int| 0 <= i < ks.len() && 0 <= i < ps.len() implies segment_selected(
            #[trigger] ks[i],
            ps[i],
        ) by {
            if i > 0 {
                assert(ks[i] == ks2[i - 1]);
                assert(ps[i] == ps2[i - 1]);
            }
        }
    }
}

/// A pattern in the list that matches the key selects it, wherever it stands in the
/// list.
pub proof fn lemma_matching_pattern_selects(patterns: Seq<Seq<char>>, key: Seq<char>, j: int)
    requires
        0 <= j < patterns.len(),
        key_matches(key, patterns[j]),
    ensures
        key_matches_some(patterns, key),
{
}

/// A key that the list selects is matched by one of its patterns.
pub proof fn lemma_selected_by_a_pattern(patterns: Seq<Seq<char>>, key: Seq<char>)
    requires
        key_matches_some(patterns, key),
    ensures
        exists|j: int| 0 <= j < patterns.len() && key_matches(key, #[trigger] patterns[j]),
{
}

/// An empty list of patterns selects no key.
pub proof fn lemma_no_patterns_select_nothing(key: Seq<char>)
    ensures
        !key_matches_some(Seq::<Seq<char>>::empty(), key),
{
}

/// Adding a pattern to the list selects what the list selected, and what the new
/// pattern matches, and nothing else.
pub proof fn lemma_adding_a_pattern(patterns: Seq<Seq<char>>, pattern: Seq<char>, key: Seq<char>)
    ensures
        key_matches_some(patterns.push(pattern), key) <==> (key_matches_some(patterns, key)
            || key_matches(key, pattern)),
{
    let ps = patterns.push(pattern);
    if key_matches_some(patterns, key) {
        let j = choose|j: int| 0 <= j < patterns.len() && key_matches(key, #[trigger] patterns[j]);
        assert(ps[j] == patterns[j]);
    }
    if key_matches(key, pattern) {
        assert(ps[patterns.len() as int] == pattern);
    }
    if key_matches_some(ps, key) {
        let j = choose|j: int| 0 <= j < ps.len() && key_matches(key, #[trigger] ps[j]);
        if j < patterns.len() {
            assert(ps[j] == patterns[j]);
        }
    }
}

fn chars_of(s: &str) -> (v: Vec<char>)
    ensures
        v@ == s@,
{
    let n = s.unicode_len();
    let mut v: Vec<char> = Vec::new();
    for i in 0..n
        invariant
            n == s@.len(),
            v@ == s@.take(i as int),
    {
        v.push(s.get_char(i));
        assert(v@ =~= s@.take(i + 1));
    }
    assert(v@ =~= s@);
    v
}

fn split_dots_chars(s: &str) -> (segs: Vec<Vec<char>>)
    ensures
        segs.deep_view() == split_dots(s@),
{
    let chars = chars_of(s);
    let mut done: Vec<Vec<char>> = Vec::new();
    let mut current: Vec<char> = Vec::new();
    for i in 0..chars.len()
        invariant
            chars@ == s@,
            done.deep_view().push(current@) == split_dots(s@.take(i as int)),
    {
        let c = chars[i];
        let ghost prefix = s@.take(i + 1);
        assert(prefix.drop_last() =~= s@.take(i as int));
        assert(prefix.last() == c);
        if c == '.' {
            let ghost before = done.deep_view();
            let ghost cur = current@;
            assert(current.deep_view() =~= current@);
            done.push(current);
            current = Vec::new();
            assert(done.deep_view() =~= before.push(cur));
            assert(done.deep_view().push(current@) =~= split_dots(prefix));
        } else {
            let ghost before = done.deep_view();
            let ghost cur = current@;
            current.push(c);
            assert(before.push(cur).update(before.len() as int, cur.push(c)) =~= before.push(
                cur.push(c),
            ));
            assert(done.deep_view().push(current@) =~= split_dots(prefix));
        }
    }
    assert(s@.take(chars.len() as int) =~= s@);
    let ghost before = done.deep_view();
    assert(current.deep_view() =~= current@);
    done.push(current);
    assert(done.deep_view() =~= before.push(current@));
    done
}

fn chars_equal(a: &Vec<char>, b: &Vec<char>) -> (eq: bool)
    ensures
        eq == (a@ == b@),
{
    if a.len() != b.len() {
        return false;
    }
    for i in 0..a.len()
        invariant
            a.len() == b.len(),
            forall|j: int| 0 <= j < i ==> a@[j] == b@[j],
    {
        if a[i] != b[i] {
            return false;
        }
    }
    assert(a@ =~= b@);
    true
}

fn is_wildcard(p: &Vec<char>) -> (w: bool)
    ensures
        w == (p@ == seq!['*']),
{
    if p.len() == 1 && p[0] == '*' {
        assert(p@ =~= seq!['*']);
        true
    } else {
        false
    }
}

/// Whether `key` matches `include_pattern`: segment by segment over the positions both
/// have, the pattern's segment is `*` or equal to the key's.
pub fn key_matches_pattern(key: &str, include_pattern: &str) -> (matches: bool)
    ensures
        matches == key_matches(key@, include_pattern@),
{
    let ks = split_dots_chars(key);
    let ps = split_dots_chars(include_pattern);
    let n = if ks.len() < ps.len() {
        ks.len()
    } else {
        ps.len()
    };
    for i in 0..n
        invariant
            ks.deep_view() == split_dots(key@),
            ps.deep_view() == split_dots(include_pattern@),
            n <= ks.len(),
            n <= ps.len(),
            n == ks.len() || n == ps.len(),
            forall|j: int|
                0 <= j < i ==> segment_selected(
                    #[trigger] split_dots(key@)[j],
                    split_dots(include_pattern@)[j],
                ),
    {
        assert(ks.deep_view()[i as int] == ks@[i as int]@);
        assert(ps.deep_view()[i as int] == ps@[i as int]@);
        if !is_wildcard(&ps[i]) && !chars_equal(&ks[i], &ps[i]) {
            return false;
        }
    }
    true
}

/// Whether `key` matches at least one of `include_patterns`.
pub fn key_matches_any_pattern(include_patterns: &[&str], key: &str) -> (matches: bool)
    ensures
        matches == key_matches_some(include_patterns@.map_values(|p: &str| p@), key@),
{
    let ghost pats = include_patterns@.map_values(|p: &str| p@);
    for i in 0..include_patterns.len()
        invariant
            pats == include_patterns@.map_values(|p: &str| p@),
            forall|j: int| 0 <= j < i ==> !key_matches(key@, #[trigger] pats[j]),
    {
        if key_matches_pattern(key, include_patterns[i]) {
            assert(pats[i as int] == include_patterns@[i as int]@);
            return true;
        }
    }
    false
}

} // verus!
