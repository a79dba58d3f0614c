//! Text helpers: decimal rendering and the display form of a wait.

use vstd::prelude::*;

verus! {

/// The character of a decimal digit `d` (`0 <= d < 10`).
pub open spec fn digit_char(d: int) -> char {
    if d == 0 { '0' }
    else if d == 1 { '1' }
    else if d == 2 { '2' }
    else if d == 3 { '3' }
    else if d == 4 { '4' }
    else if d == 5 { '5' }
    else if d == 6 { '6' }
    else if d == 7 { '7' }
    else if d == 8 { '8' }
    else { '9' }
}

/// The decimal representation of a natural number, most significant digit
/// first, without leading zeros (`0` is the single digit `0`).
pub open spec fn decimal(n: nat) -> Seq<char>
    decreases n,
{
    if n < 10 {
        seq![digit_char(n as int)]
    } else {
        decimal(n / 10).push(digit_char((n % 10) as int))
    }
}

/// What the board shows for a wait of `minutes`: `Now` when the bus is due,
/// otherwise the number of minutes followed by `m`.
pub open spec fn time_label(minutes: int) -> Seq<char> {
    if minutes <= 0 {
        seq!['N', 'o', 'w']
    } else {
        decimal(minutes as nat).push('m')
    }
}

fn digit_str(d: u64) -> (s: &'static str)
    requires
        d < 10,
    ensures
        s@ == seq![digit_char(d as int)],
{
    if d == 0 {
        proof { reveal_strlit("0"); }
        "0"
    } else if d == 1 {
        proof { reveal_strlit("1"); }
        "1"
    } else if d == 2 {
        proof { reveal_strlit("2"); }
        "2"
    } else if d == 3 {
        proof { reveal_strlit("3"); }
        "3"
    } else if d == 4 {
        proof { reveal_strlit("4"); }
        "4"
    } else if d == 5 {
        proof { reveal_strlit("5"); }
        "5"
    } else if d == 6 {
        proof { reveal_strlit("6"); }
        "6"
    } else if d == 7 {
        proof { reveal_strlit("7"); }
        "7"
    } else if d == 8 {
        proof { reveal_strlit("8"); }
        "8"
    } else {
        proof { reveal_strlit("9"); }
        "9"
    }
}

/// Appends the decimal representation of `n` to `out`.
pub fn append_decimal(out: &mut String, n: u64)
    ensures
        final(out)@ == old(out)@ + decimal(n as nat),
    decreases n,
{
    if n >= 10 {
        append_decimal(out, n / 10);
    }
    out.append(digit_str(n % 10));
}

/// Format minutes until arrival for display: "Now" when <= 0, otherwise "Xm".
pub fn format_time(minutes: i64) -> (label: String)
    ensures
        label@ == time_label(minutes as int),
{
    if minutes <= 0 {
        proof { reveal_strlit("Now"); }
        String::from_str("Now")
    } else {
        let mut out = String::new();
        append_decimal(&mut out, minutes as u64);
        proof { reveal_strlit("m"); }
        out.append("m");
        out
    }
}


// ---------------------------------------------------------------------------
// Whitespace, words and trimming
// ---------------------------------------------------------------------------

/// Characters with the Unicode `White_Space` property.
pub open spec fn is_white_space(c: char) -> bool {
    let u = c as u32;
    ||| 0x09 <= u <= 0x0d
    ||| u == 0x20
    ||| u == 0x85
    ||| u == 0xa0
    ||| u == 0x1680
    ||| 0x2000 <= u <= 0x200a
    ||| u == 0x2028
    ||| u == 0x2029
    ||| u == 0x202f
    ||| u == 0x205f
    ||| u == 0x3000
}

/// The end of the run of whitespace in `s` that starts at `i`.
pub open spec fn white_run_end(s: Seq<char>, i: int) -> int
    decreases s.len() - i,
{
    if 0 <= i < s.len() && is_white_space(s[i]) {
        white_run_end(s, i + 1)
    } else {
        i
    }
}

/// The end of the run of non-whitespace in `s` that starts at `i`.
pub open spec fn word_run_end(s: Seq<char>, i: int) -> int
    decreases s.len() - i,
{
    if 0 <= i < s.len() && !is_white_space(s[i]) {
        word_run_end(s, i + 1)
    } else {
        i
    }
}

/// The start of the run of whitespace in `s` that ends just before `j`.
pub open spec fn white_run_start(s: Seq<char>, j: int) -> int
    decreases j,
{
    if 0 < j <= s.len() && is_white_space(s[j - 1]) {
        white_run_start(s, j - 1)
    } else {
        j
    }
}

/// The first whitespace-separated word of `s`, if it has one.
pub open spec fn first_word(s: Seq<char>) -> Option<Seq<char>> {
    let a = white_run_end(s, 0);
    if a >= s.len() {
        None
    } else {
        Some(s.subrange(a, word_run_end(s, a)))
    }
}

/// `s` without leading and trailing whitespace.
pub open spec fn trim_white(s: Seq<char>) -> Seq<char> {
    let a = white_run_end(s, 0);
    let b = white_run_start(s, s.len() as int);
    if a >= b {
        Seq::empty()
    } else {
        s.subrange(a, b)
    }
}

/// `s` with every trailing occurrence of a non-empty `p` removed, one after
/// the other.
pub open spec fn trim_end_all(s: Seq<char>, p: Seq<char>) -> Seq<char>
    decreases s.len(),
{
    if 0 < p.len() <= s.len() && s.subrange(s.len() - p.len(), s.len() as int) == p {
        trim_end_all(s.subrange(0, s.len() - p.len()), p)
    } else {
        s
    }
}

/// `s` with every occurrence of a non-empty `from`, found left to right
/// without overlap, replaced by `to`.
pub open spec fn replace_all(s: Seq<char>, from: Seq<char>, to: Seq<char>) -> Seq<char>
    decreases s.len(),
{
    if from.len() == 0 || s.len() < from.len() {
        s
    } else if s.take(from.len() as int) == from {
        to + replace_all(s.skip(from.len() as int), from, to)
    } else {
        seq![s[0]] + replace_all(s.skip(1), from, to)
    }
}

/// Whether `c` has the Unicode `White_Space` property.
pub fn white_space(c: char) -> (w: bool)
    ensures
        w == is_white_space(c),
{
    let u = c as u32;
    (0x09 <= u && u <= 0x0d) || u == 0x20 || u == 0x85 || u == 0xa0 || u == 0x1680 || (0x2000
        <= u && u <= 0x200a) || u == 0x2028 || u == 0x2029 || u == 0x202f || u == 0x205f || u
        == 0x3000
}

/// The characters of `s`.
pub fn chars_of(s: &str) -> (v: Vec<char>)
    ensures
        v@ == s@,
{
    let n = s.unicode_len();
    let mut v: Vec<char> = Vec::new();
    let mut i: usize = 0;
    while i < n
        invariant
            n == s@.len(),
            i <= n,
            v@ == s@.take(i as int),
        decreases n - i,
    {
        let c = s.get_char(i);
        v.push(c);
        i = i + 1;
        assert(v@ =~= s@.take(i as int));
    }
    assert(s@.take(n as int) =~= s@);
    v
}

/// Whether `p` occurs in `s` at position `at`.
fn occurs_at(s: &Vec<char>, at: usize, p: &Vec<char>) -> (b: bool)
    requires
        at + p@.len() <= s@.len(),
    ensures
        b == (s@.subrange(at as int, at + p@.len()) == p@),
{
    let slen = s.len();
    let mut k: usize = 0;
    while k < p.len()
        invariant
            slen == s@.len(),
            at + p@.len() <= s@.len(),
            k <= p@.len(),
            forall|j: int| 0 <= j < k ==> s@[at + j] == p@[j],
        decreases p.len() - k,
    {
        if s[at + k] != p[k] {
            assert(s@.subrange(at as int, at + p@.len())[k as int] != p@[k as int]);
            return false;
        }
        k = k + 1;
    }
    assert(s@.subrange(at as int, at + p@.len()) =~= p@);
    true
}

/// The length of what is left of the first `len` characters of `s` once
/// every trailing occurrence of `p` is removed.
pub fn trim_end_len(s: &Vec<char>, len: usize, p: &str) -> (k: usize)
    requires
        len <= s@.len(),
        p@.len() > 0,
    ensures
        k <= len,
        s@.take(k as int) == trim_end_all(s@.take(len as int), p@),
{
    let pc = chars_of(p);
    let plen = pc.len();
    let mut k = len;
    while k >= plen && occurs_at(s, k - plen, &pc)
        invariant
            len <= s@.len(),
            k <= len,
            pc@ == p@,
            plen == p@.len(),
            plen > 0,
            trim_end_all(s@.take(k as int), p@) == trim_end_all(s@.take(len as int), p@),
        decreases k,
    {
        let ghost t = s@.take(k as int);
        assert(t.subrange(t.len() - plen, t.len() as int) =~= s@.subrange(k - plen, k as int));
        assert(t.subrange(0, t.len() - plen) =~= s@.take(k - plen));
        k = k - plen;
    }
    proof {
        let t = s@.take(k as int);
        if k >= plen {
            assert(t.subrange(t.len() - plen, t.len() as int) =~= s@.subrange(k - plen, k as int));
        }
    }
    k
}

/// `s` with every trailing occurrence of the non-empty `p` removed.
pub fn trim_end_matches_all(s: &str, p: &str) -> (r: String)
    requires
        p@.len() > 0,
    ensures
        r@ == trim_end_all(s@, p@),
{
    let c = chars_of(s);
    let k = trim_end_len(&c, c.len(), p);
    assert(c@.take(c@.len() as int) =~= s@);
    String::from_str(s.substring_char(0, k))
}

proof fn lemma_replace_step_match(t: Seq<char>, i: int, from: Seq<char>, to: Seq<char>)
    requires
        from.len() > 0,
        0 <= i,
        i + from.len() <= t.len(),
        t.subrange(i, i + from.len()) == from,
    ensures
        replace_all(t.skip(i), from, to) == to + replace_all(t.skip(i + from.len()), from, to),
{
    assert(t.skip(i).take(from.len() as int) =~= t.subrange(i, i + from.len()));
    assert(t.skip(i).skip(from.len() as int) =~= t.skip(i + from.len()));
}

proof fn lemma_replace_step_other(t: Seq<char>, i: int, from: Seq<char>, to: Seq<char>)
    requires
        from.len() > 0,
        0 <= i,
        i + from.len() <= t.len(),
        t.subrange(i, i + from.len()) != from,
    ensures
        replace_all(t.skip(i), from, to) == seq![t[i]] + replace_all(t.skip(i + 1), from, to),
{
    assert(t.skip(i).take(from.len() as int) =~= t.subrange(i, i + from.len()));
    assert(t.skip(i).skip(1) =~= t.skip(i + 1));
}

/// The first `end` characters of `s` with every occurrence of the non-empty
/// `from`, found left to right without overlap, replaced by `to`.
pub fn replace_within(s: &str, end: usize, from: &str, to: &str) -> (r: String)
    requires
        end <= s@.len(),
        from@.len() > 0,
    ensures
        r@ == replace_all(s@.take(end as int), from@, to@),
{
    let c = chars_of(s);
    let f = chars_of(from);
    let flen = f.len();
    let ghost t = s@.take(end as int);
    let mut out = String::new();
    let mut seg: usize = 0;
    let mut i: usize = 0;
    assert(t.skip(0) =~= t);
    assert(out@ + t.subrange(0, 0) =~= Seq::<char>::empty());
    while flen <= end - i
        invariant
            c@ == s@,
            f@ == from@,
            flen == from@.len(),
            flen > 0,
            end <= s@.len(),
            t == s@.take(end as int),
            seg <= i <= end,
            replace_all(t, from@, to@) == out@ + t.subrange(seg as int, i as int) + replace_all(
                t.skip(i as int),
                from@,
                to@,
            ),
        decreases end - i,
    {
        let hit = occurs_at(&c, i, &f);
        assert(t.subrange(i as int, i + flen) =~= s@.subrange(i as int, i + flen));
        if hit {
            proof {
                lemma_replace_step_match(t, i as int, from@, to@);
            }
            let ghost before = out@;
            out.append(s.substring_char(seg, i));
            out.append(to);
            assert(out@ =~= before + t.subrange(seg as int, i as int) + to@);
            i = i + flen;
            seg = i;
            assert(t.subrange(seg as int, i as int) =~= Seq::<char>::empty());
        } else {
            proof {
                lemma_replace_step_other(t, i as int, from@, to@);
            }
            assert(t.subrange(seg as int, i as int) + seq![t[i as int]] =~= t.subrange(
                seg as int,
                i + 1,
            ));
            i = i + 1;
        }
    }
    assert(replace_all(t.skip(i as int), from@, to@) == t.skip(i as int));
    let ghost before = out@;
    out.append(s.substring_char(seg, end));
    assert(out@ =~= before + t.subrange(seg as int, i as int) + t.skip(i as int));
    out
}

/// `s` with every occurrence of the non-empty `from`, found left to right
/// without overlap, replaced by `to`.
pub fn replace_all_in(s: &str, from: &str, to: &str) -> (r: String)
    requires
        from@.len() > 0,
    ensures
        r@ == replace_all(s@, from@, to@),
{
    let n = s.unicode_len();
    assert(s@.take(n as int) =~= s@);
    replace_within(s, n, from, to)
}

/// The first whitespace-separated word of `s`, or `None` if `s` holds only
/// whitespace.
pub fn first_word_of(s: &str) -> (w: Option<String>)
    ensures
        match w {
            Some(x) => first_word(s@) == Some(x@),
            None => first_word(s@) is None,
        },
{
    let c = chars_of(s);
    let n = c.len();
    let mut i: usize = 0;
    while i < n && white_space(c[i])
        invariant
            c@ == s@,
            n == s@.len(),
            i <= n,
            white_run_end(s@, 0) == white_run_end(s@, i as int),
        decreases n - i,
    {
        i = i + 1;
    }
    if i >= n {
        return None;
    }
    let mut j: usize = i;
    while j < n && !white_space(c[j])
        invariant
            c@ == s@,
            n == s@.len(),
            i <= j <= n,
            word_run_end(s@, i as int) == word_run_end(s@, j as int),
        decreases n - j,
    {
        j = j + 1;
    }
    Some(String::from_str(s.substring_char(i, j)))
}

/// `s` without leading and trailing whitespace.
pub fn trim_white_of(s: &str) -> (r: String)
    ensures
        r@ == trim_white(s@),
{
    let c = chars_of(s);
    let n = c.len();
    let mut i: usize = 0;
    while i < n && white_space(c[i])
        invariant
            c@ == s@,
            n == s@.len(),
            i <= n,
            white_run_end(s@, 0) == white_run_end(s@, i as int),
        decreases n - i,
    {
        i = i + 1;
    }
    let mut j: usize = n;
    while j > 0 && white_space(c[j - 1])
        invariant
            c@ == s@,
            n == s@.len(),
            j <= n,
            white_run_start(s@, n as int) == white_run_start(s@, j as int),
        decreases j,
    {
        j = j - 1;
    }
    if i >= j {
        String::new()
    } else {
        String::from_str(s.substring_char(i, j))
    }
}

} // verus!
