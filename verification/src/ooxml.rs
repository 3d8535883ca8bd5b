//! Building blocks of the XML parts of a presentation package: decimal
//! numbers, escaped text, and lists of numbered entries.
use vstd::prelude::*;
use crate::text::{chars_of, push_char};

verus! {

/// The decimal digit of `d`.
pub open spec fn digit_char(d: int) -> char {
    (('0' as int) + d) as char
}

/// The decimal notation of `n`, without leading zeros.
pub open spec fn dec(n: nat) -> Seq<char>
    decreases n,
{
    if n < 10 {
        seq![digit_char(n as int)]
    } else {
        dec(n / 10).push(digit_char((n % 10) as int))
    }
}

/// The decimal notation of a signed number, with `-` before a negative one.
pub open spec fn dec_signed(n: int) -> Seq<char> {
    if n < 0 {
        seq!['-'] + dec((-n) as nat)
    } else {
        dec(n as nat)
    }
}

fn digit(d: u64) -> (r: char)
    requires
        d < 10,
    ensures
        r == digit_char(d as int),
{
    match d {
        0 => '0',
        1 => '1',
        2 => '2',
        3 => '3',
        4 => '4',
        5 => '5',
        6 => '6',
        7 => '7',
        8 => '8',
        _ => '9',
    }
}

/// Appends the decimal notation of `n`.
pub fn push_decimal(s: &mut String, n: u64)
    ensures
        final(s)@ == old(s)@ + dec(n as nat),
    decreases n,
{
    if n >= 10 {
        push_decimal(s, n / 10);
    }
    push_char(s, digit(n % 10));
    proof {
        if n >= 10 {
            assert(s@ =~= old(s)@ + dec(n as nat));
        } else {
            assert(s@ =~= old(s)@ + dec(n as nat));
        }
    }
}

/// Appends the decimal notation of a signed number.
pub fn push_signed(s: &mut String, n: i64)
    ensures
        final(s)@ == old(s)@ + dec_signed(n as int),
{
    if n < 0 {
        push_char(s, '-');
        let m: u64 = ((-(n + 1)) as u64) + 1;
        push_decimal(s, m);
        proof {
            assert(s@ =~= old(s)@ + dec_signed(n as int));
        }
    } else {
        push_decimal(s, n as u64);
    }
}

/// The text of a character inside XML: `&`, `<`, `>`, `"` and `'` become
/// entities.
pub open spec fn escape_char(c: char) -> Seq<char> {
    if c == '&' {
        "&amp;"@
    } else if c == '<' {
        "&lt;"@
    } else if c == '>' {
        "&gt;"@
    } else if c == '"' {
        "&quot;"@
    } else if c == '\'' {
        "&apos;"@
    } else {
        seq![c]
    }
}

/// A text escaped for XML, character by character.
pub open spec fn spec_escape(s: Seq<char>) -> Seq<char>
    decreases s.len(),
{
    if s.len() == 0 {
        seq![]
    } else {
        spec_escape(s.drop_last()) + escape_char(s.last())
    }
}

/// Escapes the five XML special characters of a text. Each character is
/// replaced on its own, `&` first, so an entity written for one character
/// is never escaped again.
pub fn escape_text(text: &str) -> (r: String)
    ensures
        r@ == spec_escape(text@),
{
    let cs = chars_of(text);
    let mut r = String::new();
    let mut i: usize = 0;
    while i < cs.len()
        invariant
            0 <= i <= cs@.len(),
            cs@ == text@,
            r@ == spec_escape(cs@.take(i as int)),
        decreases cs@.len() - i,
    {
        let c = cs[i];
        proof {
            assert(cs@.take(i + 1).drop_last() =~= cs@.take(i as int));
            reveal_strlit("&amp;");
            reveal_strlit("&lt;");
            reveal_strlit("&gt;");
            reveal_strlit("&quot;");
            reveal_strlit("&apos;");
        }
        if c == '&' {
            r.append("&amp;");
        } else if c == '<' {
            r.append("&lt;");
        } else if c == '>' {
            r.append("&gt;");
        } else if c == '"' {
            r.append("&quot;");
        } else if c == '\'' {
            r.append("&apos;");
        } else {
            push_char(&mut r, c);
        }
        i = i + 1;
    }
    proof {
        assert(cs@.take(cs@.len() as int) =~= cs@);
    }
    r
}

/// `a + dec(i) + b` for `i` in `1..=n`, one after another.
pub open spec fn numbered(n: nat, a: Seq<char>, b: Seq<char>) -> Seq<char>
    decreases n,
{
    if n == 0 {
        seq![]
    } else {
        numbered((n - 1) as nat, a, b) + a + dec(n) + b
    }
}

/// `a + dec(i) + b + dec(i) + c` for `i` in `1..=n`.
pub open spec fn numbered_twice(n: nat, a: Seq<char>, b: Seq<char>, c: Seq<char>) -> Seq<char>
    decreases n,
{
    if n == 0 {
        seq![]
    } else {
        numbered_twice((n - 1) as nat, a, b, c) + a + dec(n) + b + dec(n) + c
    }
}

/// `a + dec(base + i) + b + dec(i) + c` for `i` in `1..=n`.
pub open spec fn numbered_offset(n: nat, base: nat, a: Seq<char>, b: Seq<char>, c: Seq<char>) -> Seq<char>
    decreases n,
{
    if n == 0 {
        seq![]
    } else {
        numbered_offset((n - 1) as nat, base, a, b, c) + a + dec(base + n) + b + dec(n) + c
    }
}

/// Appends `a + i + b` for `i` in `1..=n`.
pub fn push_numbered(s: &mut String, n: u64, a: &str, b: &str)
    ensures
        final(s)@ == old(s)@ + numbered(n as nat, a@, b@),
{
    let mut i: u64 = 0;
    while i < n
        invariant
            0 <= i <= n,
            s@ == old(s)@ + numbered(i as nat, a@, b@),
        decreases n - i,
    {
        i = i + 1;
        s.append(a);
        push_decimal(s, i);
        s.append(b);
        proof {
            assert(s@ =~= old(s)@ + numbered(i as nat, a@, b@));
        }
    }
}

/// Appends `a + i + b + i + c` for `i` in `1..=n`.
pub fn push_numbered_twice(s: &mut String, n: u64, a: &str, b: &str, c: &str)
    ensures
        final(s)@ == old(s)@ + numbered_twice(n as nat, a@, b@, c@),
{
    let mut i: u64 = 0;
    while i < n
        invariant
            0 <= i <= n,
            s@ == old(s)@ + numbered_twice(i as nat, a@, b@, c@),
        decreases n - i,
    {
        i = i + 1;
        s.append(a);
        push_decimal(s, i);
        s.append(b);
        push_decimal(s, i);
        s.append(c);
        proof {
            assert(s@ =~= old(s)@ + numbered_twice(i as nat, a@, b@, c@));
        }
    }
}

/// Appends `a + (base + i) + b + i + c` for `i` in `1..=n`.
pub fn push_numbered_offset(s: &mut String, n: u64, base: u64, a: &str, b: &str, c: &str)
    requires
        base + n <= u64::MAX,
    ensures
        final(s)@ == old(s)@ + numbered_offset(n as nat, base as nat, a@, b@, c@),
{
    let mut i: u64 = 0;
    while i < n
        invariant
            0 <= i <= n,
            base + n <= u64::MAX,
            s@ == old(s)@ + numbered_offset(i as nat, base as nat, a@, b@, c@),
        decreases n - i,
    {
        i = i + 1;
        s.append(a);
        push_decimal(s, base + i);
        s.append(b);
        push_decimal(s, i);
        s.append(c);
        proof {
            assert(s@ =~= old(s)@ + numbered_offset(i as nat, base as nat, a@, b@, c@));
        }
    }
}

/// One of the five entities starts at `i`.
pub open spec fn entity_at(t: Seq<char>, i: int) -> bool {
    ||| i + 5 <= t.len() && t.subrange(i, i + 5) == "&amp;"@
    ||| i + 4 <= t.len() && t.subrange(i, i + 4) == "&lt;"@
    ||| i + 4 <= t.len() && t.subrange(i, i + 4) == "&gt;"@
    ||| i + 6 <= t.len() && t.subrange(i, i + 6) == "&quot;"@
    ||| i + 6 <= t.len() && t.subrange(i, i + 6) == "&apos;"@
}

/// A character that XML text must not hold as it is.
pub open spec fn is_markup_char(c: char) -> bool {
    c == '<' || c == '>' || c == '"' || c == '\''
}

/// Reads an escaped text back: each of the five entities, from the left,
/// gives its character; any other character stands for itself.
pub open spec fn unescape(t: Seq<char>) -> Seq<char>
    decreases t.len(),
{
    if t.len() == 0 {
        seq![]
    } else if t.len() >= 5 && t.subrange(0, 5) == "&amp;"@ {
        seq!['&'] + unescape(t.skip(5))
    } else if t.len() >= 4 && t.subrange(0, 4) == "&lt;"@ {
        seq!['<'] + unescape(t.skip(4))
    } else if t.len() >= 4 && t.subrange(0, 4) == "&gt;"@ {
        seq!['>'] + unescape(t.skip(4))
    } else if t.len() >= 6 && t.subrange(0, 6) == "&quot;"@ {
        seq!['"'] + unescape(t.skip(6))
    } else if t.len() >= 6 && t.subrange(0, 6) == "&apos;"@ {
        seq!['\''] + unescape(t.skip(6))
    } else {
        seq![t[0]] + unescape(t.skip(1))
    }
}

proof fn lemma_reveal_entities()
    ensures
        "&amp;"@ =~= seq!['&', 'a', 'm', 'p', ';'],
        "&lt;"@ =~= seq!['&', 'l', 't', ';'],
        "&gt;"@ =~= seq!['&', 'g', 't', ';'],
        "&quot;"@ =~= seq!['&', 'q', 'u', 'o', 't', ';'],
        "&apos;"@ =~= seq!['&', 'a', 'p', 'o', 's', ';'],
{
    reveal_strlit("&amp;");
    reveal_strlit("&lt;");
    reveal_strlit("&gt;");
    reveal_strlit("&quot;");
    reveal_strlit("&apos;");
}

proof fn lemma_escape_concat(a: Seq<char>, b: Seq<char>)
    ensures
        spec_escape(a + b) == spec_escape(a) + spec_escape(b),
    decreases b.len(),
{
    if b.len() == 0 {
        assert(a + b =~= a);
        assert(spec_escape(a) + spec_escape(b) =~= spec_escape(a));
    } else {
        lemma_escape_concat(a, b.drop_last());
        assert((a + b).drop_last() =~= a + b.drop_last());
        assert((a + b).last() == b.last());
        assert(spec_escape(a + b) =~= spec_escape(a) + spec_escape(b.drop_last()) + escape_char(b.last()));
    }
}

proof fn lemma_unescape_step(c: char, rest: Seq<char>)
    ensures
        unescape(escape_char(c) + rest) == seq![c] + unescape(rest),
{
    lemma_reveal_entities();
    let t = escape_char(c) + rest;
    if c == '&' {
        assert(t.subrange(0, 5) =~= "&amp;"@);
        assert(t.skip(5) =~= rest);
    } else if c == '<' {
        assert(t.subrange(0, 4) =~= "&lt;"@);
        assert(t.skip(4) =~= rest);
    } else if c == '>' {
        assert(t.subrange(0, 4) =~= "&gt;"@);
        assert(t.skip(4) =~= rest);
    } else if c == '"' {
        assert(t.subrange(0, 6) =~= "&quot;"@);
        assert(t.skip(6) =~= rest);
    } else if c == '\'' {
        assert(t.subrange(0, 6) =~= "&apos;"@);
        assert(t.skip(6) =~= rest);
    } else {
        assert(t[0] == c);
        assert(t.len() >= 5 ==> t.subrange(0, 5)[0] == c);
        assert(t.len() >= 4 ==> t.subrange(0, 4)[0] == c);
        assert(t.len() >= 6 ==> t.subrange(0, 6)[0] == c);
        assert(t.skip(1) =~= rest);
    }
}

proof fn lemma_unescape_escape(s: Seq<char>)
    ensures
        unescape(spec_escape(s)) == s,
    decreases s.len(),
{
    if s.len() > 0 {
        let c = s[0];
        let rest = s.drop_first();
        assert(s =~= seq![c] + rest);
        lemma_escape_concat(seq![c], rest);
        assert(seq![c].drop_last() =~= Seq::<char>::empty());
        assert(spec_escape(Seq::<char>::empty()) == Seq::<char>::empty());
        assert(spec_escape(seq![c]) == spec_escape(seq![c].drop_last()) + escape_char(seq![c].last()));
        assert(spec_escape(seq![c]) =~= escape_char(c));
        lemma_unescape_step(c, spec_escape(rest));
        lemma_unescape_escape(rest);
    }
}

proof fn lemma_escape_clean(s: Seq<char>)
    ensures
        forall|i: int| 0 <= i < spec_escape(s).len() ==> !is_markup_char(#[trigger] spec_escape(s)[i]),
        forall|i: int| 0 <= i < spec_escape(s).len() && #[trigger] spec_escape(s)[i] == '&' ==> entity_at(spec_escape(s), i),
    decreases s.len(),
{
    lemma_reveal_entities();
    if s.len() > 0 {
        lemma_escape_clean(s.drop_last());
        let a = spec_escape(s.drop_last());
        let e = escape_char(s.last());
        let t = spec_escape(s);
        assert(t == a + e);
        assert forall|i: int| 0 <= i < t.len() implies !is_markup_char(#[trigger] t[i]) by {
            if i < a.len() {
                assert(t[i] == a[i]);
            } else {
                assert(t[i] == e[i - a.len()]);
            }
        }
        assert forall|i: int| 0 <= i < t.len() && #[trigger] t[i] == '&' implies entity_at(t, i) by {
            if i < a.len() {
                assert(t[i] == a[i]);
                assert(entity_at(a, i));
                if i + 5 <= a.len() {
                    assert(t.subrange(i, i + 5) =~= a.subrange(i, i + 5));
                }
                if i + 4 <= a.len() {
                    assert(t.subrange(i, i + 4) =~= a.subrange(i, i + 4));
                }
                if i + 6 <= a.len() {
                    assert(t.subrange(i, i + 6) =~= a.subrange(i, i + 6));
                }
            } else {
                assert(t[i] == e[i - a.len()]);
                assert(i == a.len());
                let n = e.len() as int;
                assert(t.subrange(i, i + n) =~= e);
            }
        }
    }
}

/// An escaped text holds none of `<`, `>`, `"`, `'` as they are; each of
/// its `&` starts one of the five entities; and reading the entities back
/// gives the text.
pub proof fn law_escape_round_trip(text: Seq<char>)
    ensures
        forall|i: int| 0 <= i < spec_escape(text).len() ==> !is_markup_char(#[trigger] spec_escape(text)[i]),
        forall|i: int| 0 <= i < spec_escape(text).len() && #[trigger] spec_escape(text)[i] == '&' ==> entity_at(spec_escape(text), i),
        unescape(spec_escape(text)) == text,
{
    lemma_escape_clean(text);
    lemma_unescape_escape(text);
}

} // verus!
