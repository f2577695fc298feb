//! Character-level scanning primitives: substring search, whitespace
//! splitting, trimming, decimal parsing and hexadecimal formatting.
//!
//! Every parser and encoder in the crate is specified over `Seq<char>`
//! through the spec functions of this module.

use vstd::prelude::*;

verus! {

/// Whitespace for the purposes of line splitting and trimming.
pub open spec fn is_space(c: char) -> bool {
    c == ' ' || c == '\t' || c == '\r' || c == '\n'
}

/// `p` occurs in `s` at position `i`.
pub open spec fn match_at(s: Seq<char>, p: Seq<char>, i: int) -> bool {
    &&& 0 <= i
    &&& i + p.len() <= s.len()
    &&& forall|k: int| 0 <= k < p.len() ==> s[i + k] == p[k]
}

/// First position at or after `i` where `p` occurs in `s`, if any.
pub open spec fn first_match_from(s: Seq<char>, p: Seq<char>, i: int) -> Option<int>
    decreases s.len() - i,
{
    if i < 0 || i + p.len() > s.len() {
        None
    } else if match_at(s, p, i) {
        Some(i)
    } else {
        first_match_from(s, p, i + 1)
    }
}

/// First position where `p` occurs in `s`, if any.
pub open spec fn find_first(s: Seq<char>, p: Seq<char>) -> Option<int> {
    first_match_from(s, p, 0)
}

/// Skipping over positions without a match does not change the search result.
proof fn lemma_first_match_skip(s: Seq<char>, p: Seq<char>, i: int)
    requires
        0 <= i,
        forall|j: int| 0 <= j < i ==> !match_at(s, p, j),
    ensures
        first_match_from(s, p, 0) == first_match_from(s, p, i),
    decreases i,
{
    if i > 0 {
        lemma_first_match_skip(s, p, i - 1);
    }
}

/// Decide whether `p` occurs in `s` at position `i`.
fn match_here(s: &Vec<char>, p: &Vec<char>, i: usize) -> (r: bool)
    requires
        i + p@.len() <= s@.len(),
    ensures
        r == match_at(s@, p@, i as int),
{
    let n: usize = s.len();
    let mut k: usize = 0;
    while k < p.len()
        invariant
            k <= p@.len(),
            i + p@.len() <= s@.len(),
            n == s@.len(),
            forall|j: int| 0 <= j < k ==> s@[i + j] == p@[j],
        decreases p@.len() - k,
    {
        if s[i + k] != p[k] {
            assert(!match_at(s@, p@, i as int));
            return false;
        }
        k = k + 1;
    }
    true
}

/// Find the first occurrence of `p` inside `s`.
pub fn find_sub(s: &Vec<char>, p: &Vec<char>) -> (r: Option<usize>)
    ensures
        match r {
            Some(i) => find_first(s@, p@) == Some(i as int),
            None => find_first(s@, p@) is None,
        },
{
    if p.len() > s.len() {
        return None;
    }
    let mut i: usize = 0;
    while i <= s.len() - p.len()
        invariant
            p@.len() <= s@.len(),
            i <= s@.len() - p@.len() + 1,
            forall|j: int| 0 <= j < i ==> !match_at(s@, p@, j),
        decreases s@.len() - i,
    {
        if match_here(s, p, i) {
            proof {
                lemma_first_match_skip(s@, p@, i as int);
            }
            return Some(i);
        }
        i = i + 1;
    }
    proof {
        lemma_first_match_skip(s@, p@, i as int);
    }
    None
}

/// First position at or after `i` where the character `c` occurs in `s`.
pub open spec fn first_char_from(s: Seq<char>, c: char, i: int) -> Option<int>
    decreases s.len() - i,
{
    if i < 0 || i >= s.len() {
        None
    } else if s[i] == c {
        Some(i)
    } else {
        first_char_from(s, c, i + 1)
    }
}

/// Skipping over positions without the character does not change the result.
proof fn lemma_first_char_skip(s: Seq<char>, c: char, a: int, i: int)
    requires
        0 <= a <= i,
        forall|j: int| a <= j < i ==> s[j] != c,
    ensures
        first_char_from(s, c, a) == first_char_from(s, c, i),
    decreases i - a,
{
    if a < i {
        lemma_first_char_skip(s, c, a + 1, i);
    }
}

/// Find the first occurrence of `c` in `s` at or after `start`.
pub fn find_char_from(s: &Vec<char>, c: char, start: usize) -> (r: Option<usize>)
    ensures
        match r {
            Some(i) => first_char_from(s@, c, start as int) == Some(i as int),
            None => first_char_from(s@, c, start as int) is None,
        },
{
    let mut i: usize = start;
    while i < s.len()
        invariant
            start <= i,
            forall|j: int| start <= j < i ==> s@[j] != c,
        decreases s@.len() - i,
    {
        if s[i] == c {
            proof {
                lemma_first_char_skip(s@, c, start as int, i as int);
            }
            return Some(i);
        }
        i = i + 1;
    }
    proof {
        lemma_first_char_skip(s@, c, start as int, i as int);
    }
    None
}

/// A position where `p` occurs means the search finds one.
pub proof fn lemma_match_found(s: Seq<char>, p: Seq<char>, j: int)
    requires
        match_at(s, p, j),
    ensures
        find_first(s, p) is Some,
{
    lemma_first_match_from_props(s, p, 0);
}

/// First position at or after `i` holding a non-space character.
pub open spec fn first_nonspace_from(s: Seq<char>, i: int) -> Option<int>
    decreases s.len() - i,
{
    if i < 0 || i >= s.len() {
        None
    } else if !is_space(s[i]) {
        Some(i)
    } else {
        first_nonspace_from(s, i + 1)
    }
}

/// First position at or after `i` holding a space character.
pub open spec fn first_space_from(s: Seq<char>, i: int) -> Option<int>
    decreases s.len() - i,
{
    if i < 0 || i >= s.len() {
        None
    } else if is_space(s[i]) {
        Some(i)
    } else {
        first_space_from(s, i + 1)
    }
}

proof fn lemma_first_nonspace_skip(s: Seq<char>, a: int, i: int)
    requires
        0 <= a <= i,
        forall|j: int| a <= j < i ==> is_space(s[j]),
    ensures
        first_nonspace_from(s, a) == first_nonspace_from(s, i),
    decreases i - a,
{
    if a < i {
        lemma_first_nonspace_skip(s, a + 1, i);
    }
}

proof fn lemma_first_space_skip(s: Seq<char>, a: int, i: int)
    requires
        0 <= a <= i,
        forall|j: int| a <= j < i ==> !is_space(s[j]),
    ensures
        first_space_from(s, a) == first_space_from(s, i),
    decreases i - a,
{
    if a < i {
        lemma_first_space_skip(s, a + 1, i);
    }
}

/// What a non-space search says about `s`.
pub proof fn lemma_first_nonspace_from_props(s: Seq<char>, a: int)
    requires
        0 <= a,
    ensures
        match first_nonspace_from(s, a) {
            Some(i) => a <= i < s.len() && !is_space(s[i]),
            None => forall|j: int| a <= j < s.len() ==> is_space(s[j]),
        },
    decreases s.len() - a,
{
    if a < s.len() && is_space(s[a]) {
        lemma_first_nonspace_from_props(s, a + 1);
    }
}

/// What a space search says about `s`.
pub proof fn lemma_first_space_from_props(s: Seq<char>, a: int)
    requires
        0 <= a,
    ensures
        match first_space_from(s, a) {
            Some(i) => a <= i < s.len() && is_space(s[i]),
            None => forall|j: int| a <= j < s.len() ==> !is_space(s[j]),
        },
    decreases s.len() - a,
{
    if a < s.len() && !is_space(s[a]) {
        lemma_first_space_from_props(s, a + 1);
    }
}

/// Find the first non-space character at or after `start`.
pub fn find_nonspace_from(s: &Vec<char>, start: usize) -> (r: Option<usize>)
    ensures
        match r {
            Some(i) => first_nonspace_from(s@, start as int) == Some(i as int),
            None => first_nonspace_from(s@, start as int) is None,
        },
{
    let mut i: usize = start;
    while i < s.len()
        invariant
            start <= i,
            forall|j: int| start <= j < i ==> is_space(s@[j]),
        decreases s@.len() - i,
    {
        if !is_space_char(s[i]) {
            proof {
                lemma_first_nonspace_skip(s@, start as int, i as int);
            }
            return Some(i);
        }
        i = i + 1;
    }
    proof {
        lemma_first_nonspace_skip(s@, start as int, i as int);
    }
    None
}

/// Find the first space character at or after `start`.
pub fn find_space_from(s: &Vec<char>, start: usize) -> (r: Option<usize>)
    ensures
        match r {
            Some(i) => first_space_from(s@, start as int) == Some(i as int),
            None => first_space_from(s@, start as int) is None,
        },
{
    let mut i: usize = start;
    while i < s.len()
        invariant
            start <= i,
            forall|j: int| start <= j < i ==> !is_space(s@[j]),
        decreases s@.len() - i,
    {
        if is_space_char(s[i]) {
            proof {
                lemma_first_space_skip(s@, start as int, i as int);
            }
            return Some(i);
        }
        i = i + 1;
    }
    proof {
        lemma_first_space_skip(s@, start as int, i as int);
    }
    None
}

/// Copy of `s[a..b]`.
pub fn sub_chars(s: &Vec<char>, a: usize, b: usize) -> (r: Vec<char>)
    requires
        a <= b <= s@.len(),
    ensures
        r@ == s@.subrange(a as int, b as int),
{
    let mut r: Vec<char> = Vec::new();
    let mut i: usize = a;
    while i < b
        invariant
            a <= i <= b <= s@.len(),
            r@ == s@.subrange(a as int, i as int),
        decreases b - i,
    {
        proof {
            assert(s@.subrange(a as int, i + 1int) =~= s@.subrange(a as int, i as int).push(
                s@[i as int],
            ));
        }
        r.push(s[i]);
        i = i + 1;
    }
    r
}

/// Append every character of `src` to `dst`.
pub fn push_all(dst: &mut Vec<char>, src: &Vec<char>)
    ensures
        final(dst)@ == old(dst)@ + src@,
{
    let mut i: usize = 0;
    proof {
        assert(dst@ =~= old(dst)@ + src@.take(0));
    }
    while i < src.len()
        invariant
            i <= src@.len(),
            dst@ == old(dst)@ + src@.take(i as int),
        decreases src@.len() - i,
    {
        proof {
            assert((old(dst)@ + src@.take(i as int)).push(src@[i as int]) =~= old(dst)@
                + src@.take(i + 1int));
        }
        dst.push(src[i]);
        i = i + 1;
    }
    proof {
        assert(src@.take(src@.len() as int) =~= src@);
    }
}

/// `n` space characters.
pub open spec fn spaces(n: int) -> Seq<char> {
    Seq::new(n as nat, |i: int| ' ')
}

/// Append `n` spaces to `out`.
pub fn push_spaces(out: &mut Vec<char>, n: usize)
    ensures
        final(out)@ == old(out)@ + spaces(n as int),
{
    let mut i: usize = 0;
    proof {
        assert(out@ =~= old(out)@ + spaces(0));
    }
    while i < n
        invariant
            i <= n,
            out@ == old(out)@ + spaces(i as int),
        decreases n - i,
    {
        proof {
            assert((old(out)@ + spaces(i as int)).push(' ') =~= old(out)@ + spaces(i + 1int));
        }
        out.push(' ');
        i = i + 1;
    }
}

/// A splitting in progress yields at least the words already accumulated,
/// plus the word being built if it is non-empty.
pub proof fn lemma_split_ws_acc_len(s: Seq<char>, cur: Seq<char>, acc: Seq<Seq<char>>)
    ensures
        split_ws_acc(s, cur, acc).len() >= acc.len() + if cur.len() > 0 {
            1int
        } else {
            0int
        },
    decreases s.len(),
{
    if s.len() > 0 {
        if is_space(s[0]) {
            if cur.len() > 0 {
                lemma_split_ws_acc_len(s.drop_first(), Seq::empty(), acc.push(cur));
            } else {
                lemma_split_ws_acc_len(s.drop_first(), Seq::empty(), acc);
            }
        } else {
            lemma_split_ws_acc_len(s.drop_first(), cur.push(s[0]), acc);
        }
    }
}

/// A line that starts with a non-space character has at least one word.
pub proof fn lemma_words_nonempty(s: Seq<char>)
    requires
        s.len() > 0,
        !is_space(s[0]),
    ensures
        words(s).len() >= 1,
{
    lemma_split_ws_acc_len(s.drop_first(), Seq::empty().push(s[0]), Seq::empty());
}

/// What a successful or failed substring search says about `s`.
pub proof fn lemma_first_match_from_props(s: Seq<char>, p: Seq<char>, a: int)
    requires
        0 <= a,
    ensures
        match first_match_from(s, p, a) {
            Some(i) => a <= i && match_at(s, p, i) && forall|j: int|
                a <= j < i ==> !match_at(s, p, j),
            None => forall|j: int| a <= j ==> !match_at(s, p, j),
        },
    decreases s.len() - a,
{
    if a + p.len() > s.len() {
        assert(forall|j: int| a <= j ==> !match_at(s, p, j));
    } else if !match_at(s, p, a) {
        lemma_first_match_from_props(s, p, a + 1);
    }
}

/// What a successful or failed character search says about `s`.
pub proof fn lemma_first_char_from_props(s: Seq<char>, c: char, a: int)
    requires
        0 <= a,
    ensures
        match first_char_from(s, c, a) {
            Some(i) => a <= i < s.len() && s[i] == c && forall|j: int|
                a <= j < i ==> s[j] != c,
            None => forall|j: int| a <= j < s.len() ==> s[j] != c,
        },
    decreases s.len() - a,
{
    if a < s.len() && s[a] != c {
        lemma_first_char_from_props(s, c, a + 1);
    }
}

/// The two-character comment marker `//`.
pub open spec fn comment_marker() -> Seq<char> {
    seq!['/', '/']
}

/// An executable copy of the comment marker.
pub fn comment_marker_chars() -> (r: Vec<char>)
    ensures
        r@ == comment_marker(),
{
    let mut v: Vec<char> = Vec::new();
    v.push('/');
    v.push('/');
    proof {
        assert(v@ =~= comment_marker());
    }
    v
}

/// The characters of `s`, in order.
pub fn chars_of(s: &str) -> (r: Vec<char>)
    ensures
        r@ == s@,
{
    let n = s.unicode_len();
    let mut v: Vec<char> = Vec::new();
    let mut i: usize = 0;
    while i < n
        invariant
            n == s@.len(),
            i <= n,
            v@ == s@.take(i as int),
        decreases n - i,
    {
        let c = s.get_char(i);
        proof {
            assert(s@.take(i + 1int) =~= s@.take(i as int).push(s@[i as int]));
        }
        v.push(c);
        i = i + 1;
    }
    proof {
        assert(s@.take(n as int) =~= s@);
    }
    v
}

/// Relies on `String`'s `FromIterator<char>` impl: collecting characters
/// yields the string of exactly those characters, in order.
#[verifier::external_body]
pub(crate) fn string_from_chars(v: &Vec<char>) -> (r: String)
    ensures
        r@ == v@,
{
    v.iter().collect()
}

/// The views of a sequence of strings.
pub open spec fn seq_views(v: Seq<String>) -> Seq<Seq<char>> {
    v.map_values(|x: String| x@)
}

/// Whitespace splitting, one character at a time: `cur` is the word being
/// accumulated, `acc` the words already finished.
pub open spec fn split_ws_acc(s: Seq<char>, cur: Seq<char>, acc: Seq<Seq<char>>) -> Seq<
    Seq<char>,
>
    decreases s.len(),
{
    if s.len() == 0 {
        if cur.len() > 0 {
            acc.push(cur)
        } else {
            acc
        }
    } else if is_space(s[0]) {
        if cur.len() > 0 {
            split_ws_acc(s.drop_first(), Seq::empty(), acc.push(cur))
        } else {
            split_ws_acc(s.drop_first(), Seq::empty(), acc)
        }
    } else {
        split_ws_acc(s.drop_first(), cur.push(s[0]), acc)
    }
}

/// The whitespace-delimited words of `s`.
pub open spec fn words(s: Seq<char>) -> Seq<Seq<char>> {
    split_ws_acc(s, Seq::empty(), Seq::empty())
}

/// Decide whitespace.
pub fn is_space_char(c: char) -> (r: bool)
    ensures
        r == is_space(c),
{
    c == ' ' || c == '\t' || c == '\r' || c == '\n'
}

/// Split `s` into its whitespace-delimited words.
pub fn split_words(s: &Vec<char>) -> (r: Vec<String>)
    ensures
        seq_views(r@) == words(s@),
{
    let mut acc: Vec<String> = Vec::new();
    let mut cur: Vec<char> = Vec::new();
    let mut i: usize = 0;
    proof {
        assert(s@.skip(0) =~= s@);
        assert(cur@ =~= Seq::<char>::empty());
        assert(seq_views(acc@) =~= Seq::<Seq<char>>::empty());
    }
    while i < s.len()
        invariant
            i <= s@.len(),
            split_ws_acc(s@.skip(i as int), cur@, seq_views(acc@)) == words(s@),
        decreases s@.len() - i,
    {
        let ghost pre = s@.skip(i as int);
        proof {
            assert(pre.drop_first() =~= s@.skip(i + 1int));
            assert(pre[0] == s@[i as int]);
        }
        let c = s[i];
        if is_space_char(c) {
            if cur.len() > 0 {
                let w = string_from_chars(&cur);
                let ghost old_acc = acc@;
                acc.push(w);
                proof {
                    assert(seq_views(acc@) =~= seq_views(old_acc).push(cur@));
                }
                cur = Vec::new();
                proof {
                    assert(cur@ =~= Seq::<char>::empty());
                }
            } else {
                proof {
                    assert(cur@ =~= Seq::<char>::empty());
                }
            }
        } else {
            cur.push(c);
        }
        i = i + 1;
    }
    proof {
        assert(s@.skip(s@.len() as int) =~= Seq::<char>::empty());
    }
    if cur.len() > 0 {
        let w = string_from_chars(&cur);
        let ghost old_acc = acc@;
        acc.push(w);
        proof {
            assert(seq_views(acc@) =~= seq_views(old_acc).push(cur@));
        }
    }
    acc
}

/// `s` without its leading whitespace.
pub open spec fn trim_start(s: Seq<char>) -> Seq<char>
    decreases s.len(),
{
    if s.len() > 0 && is_space(s[0]) {
        trim_start(s.drop_first())
    } else {
        s
    }
}

/// `s` without its trailing whitespace.
pub open spec fn trim_end(s: Seq<char>) -> Seq<char>
    decreases s.len(),
{
    if s.len() > 0 && is_space(s.last()) {
        trim_end(s.drop_last())
    } else {
        s
    }
}

/// `s` without leading or trailing whitespace.
pub open spec fn spec_trim(s: Seq<char>) -> Seq<char> {
    trim_end(trim_start(s))
}

/// A non-empty trim-start result begins with a non-space character.
proof fn lemma_trim_start_head(s: Seq<char>)
    ensures
        trim_start(s).len() > 0 ==> !is_space(trim_start(s)[0]),
    decreases s.len(),
{
    if s.len() > 0 && is_space(s[0]) {
        lemma_trim_start_head(s.drop_first());
    }
}

/// Trimming the end keeps the first character.
proof fn lemma_trim_end_head(s: Seq<char>)
    ensures
        trim_end(s).len() > 0 ==> trim_end(s)[0] == s[0],
    decreases s.len(),
{
    if s.len() > 0 && is_space(s.last()) {
        lemma_trim_end_head(s.drop_last());
    }
}

/// A non-empty trimmed line begins with a non-space character.
pub proof fn lemma_trim_head(s: Seq<char>)
    ensures
        spec_trim(s).len() > 0 ==> !is_space(spec_trim(s)[0]),
{
    lemma_trim_start_head(s);
    lemma_trim_end_head(trim_start(s));
}

/// Copy of `s` without leading or trailing whitespace.
pub fn trim_chars(s: &Vec<char>) -> (r: Vec<char>)
    ensures
        r@ == spec_trim(s@),
{
    let mut a: usize = 0;
    proof {
        assert(s@.skip(0) =~= s@);
    }
    while a < s.len() && is_space_char(s[a])
        invariant
            a <= s@.len(),
            trim_start(s@.skip(a as int)) == trim_start(s@),
        decreases s@.len() - a,
    {
        proof {
            assert(s@.skip(a as int).drop_first() =~= s@.skip(a + 1int));
        }
        a = a + 1;
    }
    proof {
        if a < s@.len() {
            assert(trim_start(s@) == s@.skip(a as int));
        } else {
            assert(s@.skip(a as int) =~= Seq::<char>::empty());
            assert(trim_start(s@) =~= s@.skip(a as int));
        }
    }
    let mut b: usize = s.len();
    while b > a && is_space_char(s[b - 1])
        invariant
            a <= b <= s@.len(),
            trim_start(s@) == s@.skip(a as int),
            trim_end(s@.subrange(a as int, b as int)) == trim_end(s@.skip(a as int)),
        decreases b,
    {
        proof {
            assert(s@.subrange(a as int, b as int).last() == s@[b - 1int]);
            assert(s@.subrange(a as int, b as int).drop_last() =~= s@.subrange(
                a as int,
                b - 1int,
            ));
        }
        b = b - 1;
    }
    proof {
        if b > a {
            assert(s@.subrange(a as int, b as int).last() == s@[b - 1int]);
            assert(trim_end(s@.subrange(a as int, b as int)) == s@.subrange(a as int, b as int));
        } else {
            assert(s@.subrange(a as int, b as int) =~= Seq::<char>::empty());
        }
        assert(s@.skip(a as int) =~= s@.subrange(a as int, s@.len() as int));
    }
    let mut r: Vec<char> = Vec::new();
    let mut i: usize = a;
    while i < b
        invariant
            a <= i <= b <= s@.len(),
            r@ == s@.subrange(a as int, i as int),
        decreases b - i,
    {
        proof {
            assert(s@.subrange(a as int, i + 1int) =~= s@.subrange(a as int, i as int).push(
                s@[i as int],
            ));
        }
        r.push(s[i]);
        i = i + 1;
    }
    proof {
        assert(r@ == spec_trim(s@));
    }
    r
}

/// Decimal digit test.
pub open spec fn is_digit(c: char) -> bool {
    48 <= (c as u32) <= 57
}

/// Value of a decimal digit.
pub open spec fn digit_val(c: char) -> int {
    (c as u32) - 48
}

/// Every character of `s` is a decimal digit.
pub open spec fn all_digits(s: Seq<char>) -> bool {
    forall|i: int| 0 <= i < s.len() ==> is_digit(s[i])
}

/// Value of `s` read as a decimal numeral.
pub open spec fn dec_val(s: Seq<char>) -> int
    decreases s.len(),
{
    if s.len() == 0 {
        0
    } else {
        dec_val(s.drop_last()) * 10 + digit_val(s.last())
    }
}

/// A numeral of digits has a non-negative value.
pub proof fn lemma_dec_val_nonneg(s: Seq<char>)
    requires
        all_digits(s),
    ensures
        dec_val(s) >= 0,
    decreases s.len(),
{
    if s.len() > 0 {
        assert(all_digits(s.drop_last()));
        lemma_dec_val_nonneg(s.drop_last());
    }
}

/// The value of a numeral's prefix never exceeds the numeral's value.
pub proof fn lemma_dec_val_prefix(s: Seq<char>, i: int)
    requires
        all_digits(s),
        0 <= i <= s.len(),
    ensures
        dec_val(s.take(i)) <= dec_val(s),
    decreases s.len() - i,
{
    if i < s.len() {
        assert(all_digits(s.drop_last()));
        lemma_dec_val_nonneg(s.drop_last());
        if i == s.len() - 1 {
            assert(s.take(i) =~= s.drop_last());
        } else {
            assert(s.drop_last().take(i) =~= s.take(i));
            lemma_dec_val_prefix(s.drop_last(), i);
        }
    } else {
        assert(s.take(i) =~= s);
    }
}

/// Parse `w` as a decimal number; succeeds exactly when `w` is a non-empty
/// all-digit numeral whose value fits in 16 bits.
pub fn parse_decimal(w: &Vec<char>) -> (r: Option<u32>)
    ensures
        match r {
            Some(v) => w@.len() >= 1 && all_digits(w@) && dec_val(w@) == v && v <= 0xFFFF,
            None => !(w@.len() >= 1 && all_digits(w@) && dec_val(w@) <= 0xFFFF),
        },
{
    if w.len() == 0 {
        return None;
    }
    let mut acc: u32 = 0;
    let mut i: usize = 0;
    while i < w.len()
        invariant
            i <= w@.len(),
            all_digits(w@.take(i as int)),
            acc == dec_val(w@.take(i as int)),
            acc <= 0xFFFF,
        decreases w@.len() - i,
    {
        let c = w[i];
        let cv = c as u32;
        if cv < 48 || cv > 57 {
            assert(!is_digit(w@[i as int]));
            return None;
        }
        let d: u32 = cv - 48;
        proof {
            assert(w@.take(i + 1int).drop_last() =~= w@.take(i as int));
            assert(w@.take(i + 1int).last() == w@[i as int]);
        }
        let next: u32 = acc * 10 + d;
        if next > 0xFFFF {
            proof {
                if all_digits(w@) {
                    lemma_dec_val_prefix(w@, i + 1);
                }
            }
            return None;
        }
        acc = next;
        i = i + 1;
    }
    proof {
        assert(w@.take(w@.len() as int) =~= w@);
    }
    Some(acc)
}

/// Hexadecimal digit for a value below 16, upper case.
pub open spec fn hex_char(v: int) -> char {
    if v == 0 {
        '0'
    } else if v == 1 {
        '1'
    } else if v == 2 {
        '2'
    } else if v == 3 {
        '3'
    } else if v == 4 {
        '4'
    } else if v == 5 {
        '5'
    } else if v == 6 {
        '6'
    } else if v == 7 {
        '7'
    } else if v == 8 {
        '8'
    } else if v == 9 {
        '9'
    } else if v == 10 {
        'A'
    } else if v == 11 {
        'B'
    } else if v == 12 {
        'C'
    } else if v == 13 {
        'D'
    } else if v == 14 {
        'E'
    } else {
        'F'
    }
}

/// Executable hexadecimal digit.
pub fn hex_char_of(v: u32) -> (r: char)
    requires
        v < 16,
    ensures
        r == hex_char(v as int),
{
    if v == 0 {
        '0'
    } else if v == 1 {
        '1'
    } else if v == 2 {
        '2'
    } else if v == 3 {
        '3'
    } else if v == 4 {
        '4'
    } else if v == 5 {
        '5'
    } else if v == 6 {
        '6'
    } else if v == 7 {
        '7'
    } else if v == 8 {
        '8'
    } else if v == 9 {
        '9'
    } else if v == 10 {
        'A'
    } else if v == 11 {
        'B'
    } else if v == 12 {
        'C'
    } else if v == 13 {
        'D'
    } else if v == 14 {
        'E'
    } else {
        'F'
    }
}

/// Decimal numeral of a non-negative value, most significant digit first.
pub open spec fn dec_str(n: int) -> Seq<char>
    decreases n,
{
    if n < 10 {
        seq![hex_char(if n >= 0 { n } else { 0 })]
    } else {
        dec_str(n / 10) + seq![hex_char(n % 10)]
    }
}

/// The decimal digits of `v`.
pub fn u32_to_dec(v: u32) -> (r: Vec<char>)
    ensures
        r@ == dec_str(v as int),
    decreases v,
{
    if v < 10 {
        let mut r: Vec<char> = Vec::new();
        r.push(hex_char_of(v));
        proof {
            assert(r@ =~= dec_str(v as int));
        }
        r
    } else {
        let mut r = u32_to_dec(v / 10);
        r.push(hex_char_of(v % 10));
        proof {
            assert(r@ =~= dec_str(v as int));
        }
        r
    }
}

/// Two hexadecimal digits of a byte value.
pub open spec fn hex2(v: int) -> Seq<char> {
    seq![hex_char(v / 16 % 16), hex_char(v % 16)]
}

/// Four hexadecimal digits of a 16-bit value.
pub open spec fn hex4(v: int) -> Seq<char> {
    seq![
        hex_char(v / 4096 % 16),
        hex_char(v / 256 % 16),
        hex_char(v / 16 % 16),
        hex_char(v % 16),
    ]
}

/// Eight hexadecimal digits of a 32-bit value.
pub open spec fn hex8(v: int) -> Seq<char> {
    hex4(v / 65536) + hex4(v % 65536)
}

/// Append the four hexadecimal digits of `v` to `out`.
pub fn push_hex4(out: &mut Vec<char>, v: u32)
    requires
        v <= 0xFFFF,
    ensures
        final(out)@ == old(out)@ + hex4(v as int),
{
    let ghost before = out@;
    out.push(hex_char_of(v / 4096 % 16));
    out.push(hex_char_of(v / 256 % 16));
    out.push(hex_char_of(v / 16 % 16));
    out.push(hex_char_of(v % 16));
    proof {
        assert(out@ =~= before + hex4(v as int));
    }
}

/// The eight hexadecimal digits of a 32-bit value.
pub fn to_hex8(v: u32) -> (r: Vec<char>)
    ensures
        r@ == hex8(v as int),
{
    let mut out: Vec<char> = Vec::new();
    push_hex4(&mut out, v / 65536);
    push_hex4(&mut out, v % 65536);
    proof {
        assert(out@ =~= hex8(v as int));
    }
    out
}

} // verus!
