//! Characters and character sequences: whitespace, ASCII letters and their case,
//! and the passage between strings and vectors of characters.

use vstd::prelude::*;
use vstd::std_specs::iter::IteratorSpec;

verus! {

/// Whether `c` is whitespace: a character with the Unicode property `White_Space`.
pub open spec fn is_whitespace(c: char) -> bool {
    let n = c as u32;
    ||| 0x09 <= n <= 0x0d
    ||| n == 0x20
    ||| n == 0x85
    ||| n == 0xa0
    ||| n == 0x1680
    ||| 0x2000 <= n <= 0x200a
    ||| n == 0x2028
    ||| n == 0x2029
    ||| n == 0x202f
    ||| n == 0x205f
    ||| n == 0x3000
}

/// Whether `c` is one of the letters `a` to `z`.
pub open spec fn is_lower(c: char) -> bool {
    'a' <= c <= 'z'
}

/// Whether `c` is one of the letters `A` to `Z`.
pub open spec fn is_upper(c: char) -> bool {
    'A' <= c <= 'Z'
}

/// Whether `c` is an ASCII letter.
pub open spec fn is_letter(c: char) -> bool {
    is_lower(c) || is_upper(c)
}

/// `c` as a capital where it is one of `a` to `z`; any other character as it is.
pub open spec fn to_upper(c: char) -> char {
    if is_lower(c) {
        (c as u32 - 32) as char
    } else {
        c
    }
}

/// `c` as a small letter where it is one of `A` to `Z`; any other character as it is.
pub open spec fn to_lower(c: char) -> char {
    if is_upper(c) {
        (c as u32 + 32) as char
    } else {
        c
    }
}

/// Tells whether `c` is whitespace.
pub fn whitespace(c: char) -> (b: bool)
    ensures
        b == is_whitespace(c),
{
    let n: u32 = c as u32;
    (0x09 <= n && n <= 0x0d) || n == 0x20 || n == 0x85 || n == 0xa0 || n == 0x1680 || (0x2000 <= n
        && n <= 0x200a) || n == 0x2028 || n == 0x2029 || n == 0x202f || n == 0x205f || n == 0x3000
}

/// Capitalises an ASCII letter and leaves every other character alone.
pub fn upper(c: char) -> (u: char)
    ensures
        u == to_upper(c),
{
    if 'a' <= c && c <= 'z' {
        let b: u8 = c as u8;
        (b - 32) as char
    } else {
        c
    }
}

/// Turns an ASCII capital into its small letter and leaves every other character alone.
pub fn lower(c: char) -> (l: char)
    ensures
        l == to_lower(c),
{
    if 'A' <= c && c <= 'Z' {
        let b: u8 = c as u8;
        (b + 32) as char
    } else {
        c
    }
}

/// `String::push` of std: the string afterwards is the string before with `c` as
/// one more character at its end.
pub assume_specification[ String::push ](s: &mut String, c: char)
    ensures
        final(s)@ == old(s)@.push(c),
;

/// The characters of `s`, in their order.
pub fn chars_of(s: &str) -> (v: Vec<char>)
    ensures
        v@ == s@,
{
    let mut v: Vec<char> = Vec::new();
    for c in it: s.chars()
        invariant
            it.seq() == s@,
            v@ == s@.take(it.index() as int),
    {
        v.push(c);
        assert(s@.take(it.index() + 1) =~= s@.take(it.index() as int).push(c));
    }
    assert(s@.take(s@.len() as int) =~= s@);
    v
}

/// The string made of the characters `v[from..to]`.
pub fn string_of(v: &Vec<char>, from: usize, to: usize) -> (s: String)
    requires
        from <= to <= v.len(),
    ensures
        s@ == v@.subrange(from as int, to as int),
{
    let mut s = String::new();
    let mut i: usize = from;
    while i < to
        invariant
            from <= i <= to <= v.len(),
            s@ == v@.subrange(from as int, i as int),
        decreases to - i,
    {
        s.push(v[i]);
        assert(v@.subrange(from as int, i + 1) =~= v@.subrange(from as int, i as int).push(v@[i as int]));
        i += 1;
    }
    s
}

/// `s` without the whitespace at its start.
pub open spec fn trim_start(s: Seq<char>) -> Seq<char>
    decreases s.len(),
{
    if s.len() > 0 && is_whitespace(s.first()) {
        trim_start(s.drop_first())
    } else {
        s
    }
}

/// `s` without the whitespace at its end.
pub open spec fn trim_end(s: Seq<char>) -> Seq<char>
    decreases s.len(),
{
    if s.len() > 0 && is_whitespace(s.last()) {
        trim_end(s.drop_last())
    } else {
        s
    }
}

/// `s` without the whitespace at its start and at its end.
pub open spec fn trim(s: Seq<char>) -> Seq<char> {
    trim_end(trim_start(s))
}

/// `s` without its whitespace, wherever that stands.
pub open spec fn without_whitespace(s: Seq<char>) -> Seq<char> {
    s.filter(|c: char| !is_whitespace(c))
}

/// `s` without its spaces.
pub open spec fn without_spaces(s: Seq<char>) -> Seq<char> {
    s.filter(|c: char| c != ' ')
}

/// `s` with every ASCII capital turned into its small letter.
pub open spec fn lowercased(s: Seq<char>) -> Seq<char> {
    s.map_values(|c: char| to_lower(c))
}

/// `s` with every small ASCII letter capitalised.
pub open spec fn uppercased(s: Seq<char>) -> Seq<char> {
    s.map_values(|c: char| to_upper(c))
}

/// The normal form of a word as it was typed: its whitespace taken out, its capitals
/// made small.
pub open spec fn normal_form(raw: Seq<char>) -> Seq<char> {
    lowercased(without_whitespace(raw))
}

/// Whether `s` holds ASCII letters and nothing else.
pub open spec fn all_letters(s: Seq<char>) -> bool {
    forall|i: int| 0 <= i < s.len() ==> is_letter(#[trigger] s[i])
}

/// Whether `s` holds small ASCII letters and nothing else.
pub open spec fn all_lower(s: Seq<char>) -> bool {
    forall|i: int| 0 <= i < s.len() ==> is_lower(#[trigger] s[i])
}

/// Finds what `trim` keeps of `v`: the bounds `(from, to)` of that part.
pub fn trim_range(v: &Vec<char>) -> (bounds: (usize, usize))
    ensures
        bounds.0 <= bounds.1 <= v.len(),
        v@.subrange(bounds.0 as int, bounds.1 as int) == trim(v@),
{
    let mut from: usize = 0;
    assert(v@.skip(0) =~= v@);
    while from < v.len() && whitespace(v[from])
        invariant
            from <= v.len(),
            trim_start(v@) == trim_start(v@.skip(from as int)),
        decreases v.len() - from,
    {
        assert(v@.skip(from as int).drop_first() =~= v@.skip(from + 1));
        from += 1;
    }
    assert(trim_start(v@) == v@.skip(from as int));
    let mut to: usize = v.len();
    assert(v@.subrange(from as int, to as int) =~= v@.skip(from as int));
    while to > from && whitespace(v[to - 1])
        invariant
            from <= to <= v.len(),
            trim(v@) == trim_end(v@.subrange(from as int, to as int)),
        decreases to - from,
    {
        assert(v@.subrange(from as int, to as int).drop_last() =~= v@.subrange(
            from as int,
            to - 1,
        ));
        to -= 1;
    }
    (from, to)
}

/// Brings the characters of a word into normal form.
pub fn normalized(raw: &Vec<char>) -> (word: Vec<char>)
    ensures
        word@ == normal_form(raw@),
{
    let mut word: Vec<char> = Vec::new();
    let mut i: usize = 0;
    while i < raw.len()
        invariant
            i <= raw.len(),
            word@ == normal_form(raw@.take(i as int)),
        decreases raw.len() - i,
    {
        let c = raw[i];
        proof {
            assert(raw@.take(i + 1) =~= raw@.take(i as int).push(c));
            lemma_normal_form_push(raw@.take(i as int), c);
        }
        if !whitespace(c) {
            word.push(lower(c));
        }
        i += 1;
    }
    assert(raw@.take(raw.len() as int) =~= raw@);
    word
}

/// Tells whether `word` holds small ASCII letters and nothing else.
pub fn is_all_lower(word: &Vec<char>) -> (b: bool)
    ensures
        b == all_lower(word@),
{
    let mut i: usize = 0;
    while i < word.len()
        invariant
            i <= word.len(),
            forall|j: int| 0 <= j < i ==> is_lower(#[trigger] word@[j]),
        decreases word.len() - i,
    {
        let c = word[i];
        if !('a' <= c && c <= 'z') {
            return false;
        }
        i += 1;
    }
    true
}

/// A filter keeps the whole of a sequence whose every entry it accepts.
pub proof fn lemma_filter_keeps_all<A>(s: Seq<A>, accepts: spec_fn(A) -> bool)
    requires
        forall|i: int| 0 <= i < s.len() ==> accepts(#[trigger] s[i]),
    ensures
        s.filter(accepts) == s,
    decreases s.len(),
{
    reveal(Seq::filter);
    if s.len() > 0 {
        lemma_filter_keeps_all(s.drop_last(), accepts);
        assert(s.drop_last().push(s.last()) =~= s);
    }
}

/// A word holds letters only if and only if, with its capitals made small, it holds
/// small letters only.
pub proof fn lemma_letters_lowercased(s: Seq<char>)
    ensures
        all_letters(s) <==> all_lower(lowercased(s)),
{
    if all_letters(s) {
        assert forall|i: int| 0 <= i < s.len() implies is_lower(#[trigger] lowercased(s)[i]) by {
            assert(is_letter(s[i]));
        }
    }
    if all_lower(lowercased(s)) {
        assert forall|i: int| 0 <= i < s.len() implies is_letter(#[trigger] s[i]) by {
            assert(is_lower(lowercased(s)[i]));
        }
    }
}

/// The normal form of a word that ends with `c`: that of the word before `c`, and
/// after it `c` as a small letter unless `c` is whitespace.
proof fn lemma_normal_form_push(s: Seq<char>, c: char)
    ensures
        normal_form(s.push(c)) == if is_whitespace(c) {
            normal_form(s)
        } else {
            normal_form(s).push(to_lower(c))
        },
{
    reveal(Seq::filter);
    assert(s.push(c).drop_last() =~= s);
    assert(lowercased(without_whitespace(s).push(c)) =~= lowercased(without_whitespace(s)).push(
        to_lower(c),
    ));
}

/// A word in normal form is its own normal form.
pub proof fn lemma_normal_form_idempotent(raw: Seq<char>)
    ensures
        normal_form(normal_form(raw)) == normal_form(raw),
{
    let kept = without_whitespace(raw);
    let word = normal_form(raw);
    assert forall|i: int| 0 <= i < word.len() implies !is_whitespace(#[trigger] word[i]) by {
        raw.lemma_filter_pred(|c: char| !is_whitespace(c), i);
        assert(word[i] == to_lower(kept[i]));
    }
    lemma_filter_keeps_all(word, |c: char| !is_whitespace(c));
    assert(lowercased(word) =~= word);
}

/// Whitespace does not count: a word with a whitespace character put in anywhere has
/// the normal form of the word without it.
pub proof fn lemma_normal_form_ignores_whitespace(before: Seq<char>, c: char, after: Seq<char>)
    requires
        is_whitespace(c),
    ensures
        normal_form(before.push(c) + after) == normal_form(before + after),
{
    let keep = |c: char| !is_whitespace(c);
    Seq::filter_distributes_over_add(before.push(c), after, keep);
    Seq::filter_distributes_over_add(before, after, keep);
    lemma_normal_form_push(before, c);
    assert(without_whitespace(before.push(c)) == without_whitespace(before)) by {
        reveal(Seq::filter);
        assert(before.push(c).drop_last() =~= before);
    }
}

/// Case does not count: two words that differ in the case of their letters only have
/// the same normal form.
pub proof fn lemma_normal_form_ignores_case(a: Seq<char>, b: Seq<char>)
    requires
        lowercased(a) == lowercased(b),
    ensures
        normal_form(a) == normal_form(b),
    decreases a.len(),
{
    assert(a.len() == lowercased(a).len() && b.len() == lowercased(b).len());
    if a.len() == 0 {
        assert(a =~= b);
    } else {
        let i = a.len() - 1;
        assert(lowercased(a)[i] == to_lower(a[i]) && lowercased(b)[i] == to_lower(b[i]));
        assert(lowercased(a.drop_last()) =~= lowercased(a).drop_last());
        assert(lowercased(b.drop_last()) =~= lowercased(b).drop_last());
        lemma_normal_form_ignores_case(a.drop_last(), b.drop_last());
        lemma_normal_form_push(a.drop_last(), a.last());
        lemma_normal_form_push(b.drop_last(), b.last());
        assert(a.drop_last().push(a.last()) =~= a);
        assert(b.drop_last().push(b.last()) =~= b);
    }
}

} // verus!
