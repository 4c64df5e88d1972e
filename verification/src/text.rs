//! Character-level helpers: strings as sequences of characters, with the
//! splitting, trimming, joining and decimal rendering the scanners need.

use vstd::prelude::*;
use vstd::std_specs::iter::IteratorSpec;
use vstd::string::StringExecFns;

verus! {

/// `String::push` appends one character to the end of the string.
pub assume_specification[ String::push ](s: &mut String, ch: char)
    ensures
        final(s)@ == old(s)@.push(ch),
;

/// The characters of `s`, in order.
pub fn to_chars(s: &str) -> (v: Vec<char>)
    ensures
        v@ == s@,
{
    let mut v: Vec<char> = Vec::new();
    let mut it = s.chars();
    loop
        invariant
            it.obeys_prophetic_iter_laws(),
            it.decrease() is Some,
            v@ + it.remaining() == s@,
        ensures
            v@ == s@,
        decreases it.decrease()->0,
    {
        match it.next() {
            Some(c) => {
                v.push(c);
            },
            None => {
                assert(it.remaining().len() == 0);
                assert(v@ + it.remaining() == v@);
                break ;
            },
        }
    }
    v
}

/// The string made of the characters `v[from..to]`.
pub fn from_chars(v: &Vec<char>, from: usize, to: usize) -> (s: String)
    requires
        from <= to <= v.len(),
    ensures
        s@ == v@.subrange(from as int, to as int),
{
    let mut s = String::new();
    let mut i: usize = from;
    while i < to
        invariant
            from <= i <= to <= v.len(),
            s@ == v@.subrange(from as int, i as int),
        decreases to - i,
    {
        s.push(v[i]);
        i = i + 1;
    }
    s
}

/// The views of a sequence of strings.
pub open spec fn texts(v: Seq<String>) -> Seq<Seq<char>> {
    v.map_values(|s: String| s@)
}

/// The view of a string that may be missing.
pub open spec fn opt_text(o: Option<String>) -> Option<Seq<char>> {
    match o {
        Some(s) => Some(s@),
        None => None,
    }
}

/// A copy of `v`.
pub fn copy_strings(v: &Vec<String>) -> (out: Vec<String>)
    ensures
        out@ == v@,
{
    let mut out: Vec<String> = Vec::new();
    let mut i: usize = 0;
    while i < v.len()
        invariant
            i <= v.len(),
            out@ == v@.subrange(0, i as int),
        decreases v.len() - i,
    {
        out.push(v[i].clone());
        assert(out@ == v@.subrange(0, i + 1));
        i = i + 1;
    }
    assert(v@.subrange(0, v.len() as int) == v@);
    out
}

/// Whether one of the strings in `list` reads as `s` does.
pub fn contains_text(list: &Vec<String>, s: &String) -> (b: bool)
    ensures
        b == texts(list@).contains(s@),
{
    let mut i: usize = 0;
    while i < list.len()
        invariant
            i <= list.len(),
            forall|k: int| 0 <= k < i ==> texts(list@)[k] != s@,
        decreases list.len() - i,
    {
        if list[i] == *s {
            assert(texts(list@)[i as int] == s@);
            return true;
        }
        i = i + 1;
    }
    false
}

/// Whether `c` is white space: the Unicode property `White_Space`.
pub open spec fn is_space(c: char) -> bool {
    let u = c as u32;
    ||| 0x09 <= u <= 0x0D
    ||| u == 0x20
    ||| u == 0x85
    ||| u == 0xA0
    ||| u == 0x1680
    ||| 0x2000 <= u <= 0x200A
    ||| u == 0x2028
    ||| u == 0x2029
    ||| u == 0x202F
    ||| u == 0x205F
    ||| u == 0x3000
}

/// Tells whether `c` is white space.
pub fn is_whitespace(c: char) -> (b: bool)
    ensures
        b == is_space(c),
{
    let u: u32 = c as u32;
    (0x09 <= u && u <= 0x0D) || u == 0x20 || u == 0x85 || u == 0xA0 || u == 0x1680 || (0x2000 <= u
        && u <= 0x200A) || u == 0x2028 || u == 0x2029 || u == 0x202F || u == 0x205F || u == 0x3000
}

/// `s` without its leading and trailing white space.
pub open spec fn trimmed(s: Seq<char>) -> Seq<char>
    decreases s.len(),
{
    if s.len() > 0 && is_space(s.first()) {
        trimmed(s.drop_first())
    } else if s.len() > 0 && is_space(s.last()) {
        trimmed(s.drop_last())
    } else {
        s
    }
}

/// The bounds `(a, b)` of what is left of `v[from..to]` once white space is
/// trimmed from both ends.
pub fn trim_bounds(v: &Vec<char>, from: usize, to: usize) -> (r: (usize, usize))
    requires
        from <= to <= v.len(),
    ensures
        from <= r.0 <= r.1 <= to,
        v@.subrange(r.0 as int, r.1 as int) == trimmed(v@.subrange(from as int, to as int)),
{
    let mut a: usize = from;
    while a < to && is_whitespace(v[a])
        invariant
            from <= a <= to <= v.len(),
            trimmed(v@.subrange(a as int, to as int)) == trimmed(
                v@.subrange(from as int, to as int),
            ),
        decreases to - a,
    {
        assert(v@.subrange(a as int, to as int).drop_first() == v@.subrange(a + 1, to as int));
        a = a + 1;
    }
    let mut b: usize = to;
    while b > a && is_whitespace(v[b - 1])
        invariant
            from <= a <= b <= to <= v.len(),
            a == b || !is_space(v@[a as int]),
            trimmed(v@.subrange(a as int, b as int)) == trimmed(
                v@.subrange(from as int, to as int),
            ),
        decreases b - a,
    {
        assert(v@.subrange(a as int, b as int).drop_last() == v@.subrange(a as int, b - 1));
        b = b - 1;
    }
    (a, b)
}

/// The pieces of `s` between occurrences of `sep`: one more piece than there
/// are separators, empty pieces included.
pub open spec fn split_on(s: Seq<char>, sep: char) -> Seq<Seq<char>>
    decreases s.len(),
{
    if s.len() == 0 {
        seq![Seq::<char>::empty()]
    } else {
        let before = split_on(s.drop_last(), sep);
        if s.last() == sep {
            before.push(Seq::<char>::empty())
        } else {
            before.drop_last().push(before.last().push(s.last()))
        }
    }
}

/// The pieces trimmed, those that are then empty left out.
pub open spec fn kept_trimmed(pieces: Seq<Seq<char>>) -> Seq<Seq<char>>
    decreases pieces.len(),
{
    if pieces.len() == 0 {
        Seq::<Seq<char>>::empty()
    } else {
        let before = kept_trimmed(pieces.drop_last());
        let t = trimmed(pieces.last());
        if t.len() > 0 {
            before.push(t)
        } else {
            before
        }
    }
}

/// The non-blank pieces of `s` between occurrences of `sep`, each trimmed.
pub open spec fn tokens(s: Seq<char>, sep: char) -> Seq<Seq<char>> {
    kept_trimmed(split_on(s, sep))
}

/// Splitting never gives an empty list of pieces.
pub proof fn lemma_split_on_nonempty(s: Seq<char>, sep: char)
    ensures
        split_on(s, sep).len() >= 1,
    decreases s.len(),
{
    if s.len() > 0 {
        lemma_split_on_nonempty(s.drop_last(), sep);
    }
}

/// Splits `v` on `sep`, trims each piece and keeps those that are not blank.
pub fn split_tokens(v: &Vec<char>, sep: char) -> (out: Vec<String>)
    ensures
        texts(out@) == tokens(v@, sep),
{
    let mut out: Vec<String> = Vec::new();
    let ghost mut done: Seq<Seq<char>> = Seq::empty();
    let mut start: usize = 0;
    let mut i: usize = 0;
    assert(v@.subrange(0, 0) == Seq::<char>::empty());
    assert(seq![Seq::<char>::empty()] == Seq::<Seq<char>>::empty().push(Seq::<char>::empty()));
    assert(texts(out@) == Seq::<Seq<char>>::empty());
    while i < v.len()
        invariant
            start <= i <= v.len(),
            split_on(v@.subrange(0, i as int), sep) == done.push(
                v@.subrange(start as int, i as int),
            ),
            texts(out@) == kept_trimmed(done),
        decreases v.len() - i,
    {
        let ghost prefix = v@.subrange(0, i as int);
        let ghost cur = v@.subrange(start as int, i as int);
        assert(v@.subrange(0, i + 1).drop_last() == prefix);
        assert(done.push(cur).drop_last() == done);
        if v[i] == sep {
            let (a, b) = trim_bounds(v, start, i);
            if a < b {
                let piece = from_chars(v, a, b);
                assert(texts(out@.push(piece)) == texts(out@).push(piece@));
                out.push(piece);
            }
            proof {
                done = done.push(cur);
            }
            start = i + 1;
            assert(v@.subrange(start as int, i + 1) == Seq::<char>::empty());
        } else {
            assert(v@.subrange(start as int, i + 1) == cur.push(v@[i as int]));
        }
        i = i + 1;
    }
    assert(v@.subrange(0, i as int) == v@);
    let ghost cur = v@.subrange(start as int, i as int);
    assert(done.push(cur).drop_last() == done);
    let (a, b) = trim_bounds(v, start, i);
    if a < b {
        let piece = from_chars(v, a, b);
        assert(texts(out@.push(piece)) == texts(out@).push(piece@));
        out.push(piece);
    }
    out
}

/// The parts written one after another with `sep` between neighbours.
pub open spec fn joined(parts: Seq<Seq<char>>, sep: Seq<char>) -> Seq<char>
    decreases parts.len(),
{
    if parts.len() == 0 {
        Seq::<char>::empty()
    } else if parts.len() == 1 {
        parts[0]
    } else {
        joined(parts.drop_last(), sep) + sep + parts.last()
    }
}

/// Joins `parts` with `sep` between neighbours.
pub fn join(parts: &Vec<String>, sep: &str) -> (out: String)
    ensures
        out@ == joined(texts(parts@), sep@),
{
    let mut out = String::new();
    let mut i: usize = 0;
    assert(texts(parts@).take(0) == Seq::<Seq<char>>::empty());
    while i < parts.len()
        invariant
            i <= parts.len(),
            out@ == joined(texts(parts@).take(i as int), sep@),
        decreases parts.len() - i,
    {
        let ghost upto = texts(parts@).take(i + 1);
        assert(upto.drop_last() == texts(parts@).take(i as int));
        assert(upto.last() == parts@[i as int]@);
        if i > 0 {
            out.append(sep);
        } else {
            assert(Seq::<char>::empty() + parts@[0]@ == parts@[0]@);
        }
        out.append(parts[i].as_str());
        i = i + 1;
    }
    assert(texts(parts@).take(parts.len() as int) == texts(parts@));
    out
}

/// A text trimmed is empty, or begins and ends with something other than
/// white space.
pub proof fn lemma_trimmed_is_trim(s: Seq<char>)
    ensures
        trimmed(s).len() <= s.len(),
        trimmed(s).len() > 0 ==> !is_space(trimmed(s).first()) && !is_space(trimmed(s).last()),
    decreases s.len(),
{
    if s.len() > 0 && is_space(s.first()) {
        lemma_trimmed_is_trim(s.drop_first());
    } else if s.len() > 0 && is_space(s.last()) {
        lemma_trimmed_is_trim(s.drop_last());
    }
}

/// Every token is trimmed and not empty.
pub proof fn lemma_tokens_are_trimmed(s: Seq<char>, sep: char)
    ensures
        forall|i: int|
            0 <= i < tokens(s, sep).len() ==> {
                let t = #[trigger] tokens(s, sep)[i];
                t.len() > 0 && !is_space(t.first()) && !is_space(t.last())
            },
{
    lemma_kept_are_trimmed(split_on(s, sep));
}

proof fn lemma_kept_are_trimmed(pieces: Seq<Seq<char>>)
    ensures
        forall|i: int|
            0 <= i < kept_trimmed(pieces).len() ==> {
                let t = #[trigger] kept_trimmed(pieces)[i];
                t.len() > 0 && !is_space(t.first()) && !is_space(t.last())
            },
    decreases pieces.len(),
{
    if pieces.len() > 0 {
        lemma_kept_are_trimmed(pieces.drop_last());
        lemma_trimmed_is_trim(pieces.last());
        let before = kept_trimmed(pieces.drop_last());
        assert forall|i: int| 0 <= i < kept_trimmed(pieces).len() implies {
            let t = #[trigger] kept_trimmed(pieces)[i];
            t.len() > 0 && !is_space(t.first()) && !is_space(t.last())
        } by {
            if i < before.len() {
                assert(kept_trimmed(pieces)[i] == before[i]);
            }
        }
    }
}

/// A single piece is kept, trimmed, unless it is blank.
proof fn lemma_kept_single(piece: Seq<char>)
    ensures
        kept_trimmed(seq![piece]) == if trimmed(piece).len() > 0 {
            seq![trimmed(piece)]
        } else {
            Seq::<Seq<char>>::empty()
        },
{
    let nothing = Seq::<Seq<char>>::empty();
    assert(seq![piece].drop_last() == nothing);
    assert(seq![piece].last() == piece);
    assert(kept_trimmed(nothing) == nothing);
    assert(nothing.push(trimmed(piece)) == seq![trimmed(piece)]);
}

/// Joining the pieces of a text with the separator gives the text back.
pub proof fn lemma_split_then_join(s: Seq<char>, sep: char)
    ensures
        joined(split_on(s, sep), seq![sep]) == s,
    decreases s.len(),
{
    if s.len() > 0 {
        let t = s.drop_last();
        let c = s.last();
        lemma_split_then_join(t, sep);
        lemma_split_on_nonempty(t, sep);
        let p = split_on(t, sep);
        assert(s == t.push(c));
        if c == sep {
            let r = p.push(Seq::<char>::empty());
            assert(r.drop_last() == p);
            assert(joined(r, seq![sep]) == joined(p, seq![sep]) + seq![sep] + Seq::<char>::empty());
            assert(t + seq![sep] + Seq::<char>::empty() == t.push(c));
        } else {
            let q = p.drop_last();
            let l = p.last();
            let r = q.push(l.push(c));
            assert(r.drop_last() == q);
            assert(r.last() == l.push(c));
            if q.len() == 0 {
                assert(p[0] == l);
                assert(r[0] == l.push(c));
            } else {
                assert(joined(p, seq![sep]) == joined(q, seq![sep]) + seq![sep] + l);
                assert(joined(r, seq![sep]) == joined(q, seq![sep]) + seq![sep] + l.push(c));
                assert(joined(q, seq![sep]) + seq![sep] + l.push(c) == (joined(q, seq![sep])
                    + seq![sep] + l).push(c));
            }
        }
    }
}

/// A text without the separator is a single piece.
pub proof fn lemma_split_on_whole(s: Seq<char>, sep: char)
    requires
        !s.contains(sep),
    ensures
        split_on(s, sep) == seq![s],
    decreases s.len(),
{
    if s.len() > 0 {
        let t = s.drop_last();
        assert(!t.contains(sep)) by {
            if t.contains(sep) {
                let k = choose|k: int| 0 <= k < t.len() && t[k] == sep;
                assert(s[k] == sep);
            }
        }
        lemma_split_on_whole(t, sep);
        assert(s[s.len() - 1] != sep);
        assert(t.push(s.last()) == s);
        assert(seq![t].drop_last().push(seq![t].last().push(s.last())) == seq![s]);
    } else {
        assert(s == Seq::<char>::empty());
    }
}

/// The pieces of two texts with a separator between them are the pieces of
/// the first, then those of the second.
pub proof fn lemma_split_on_concat(x: Seq<char>, y: Seq<char>, sep: char)
    ensures
        split_on(x + seq![sep] + y, sep) == split_on(x, sep) + split_on(y, sep),
    decreases y.len(),
{
    let whole = x + seq![sep] + y;
    let a = split_on(x, sep);
    let none = Seq::<char>::empty();
    if y.len() == 0 {
        assert(whole.drop_last() == x);
        assert(whole.last() == sep);
        assert(a.push(none) == a + seq![none]);
    } else {
        let y1 = y.drop_last();
        let b = split_on(y1, sep);
        lemma_split_on_concat(x, y1, sep);
        lemma_split_on_nonempty(y1, sep);
        assert(whole.drop_last() == x + seq![sep] + y1);
        assert(whole.last() == y.last());
        if y.last() == sep {
            assert((a + b).push(none) == a + b.push(none));
        } else {
            let grown = b.last().push(y.last());
            assert((a + b).drop_last() == a + b.drop_last());
            assert((a + b).last() == b.last());
            assert((a + b.drop_last()).push(grown) == a + b.drop_last().push(grown));
        }
    }
}

/// Trimming and keeping goes piece by piece.
pub proof fn lemma_kept_trimmed_concat(a: Seq<Seq<char>>, b: Seq<Seq<char>>)
    ensures
        kept_trimmed(a + b) == kept_trimmed(a) + kept_trimmed(b),
    decreases b.len(),
{
    if b.len() == 0 {
        assert(a + b == a);
        assert(kept_trimmed(a) + kept_trimmed(b) == kept_trimmed(a));
    } else {
        lemma_kept_trimmed_concat(a, b.drop_last());
        assert((a + b).drop_last() == a + b.drop_last());
        assert((a + b).last() == b.last());
        let t = trimmed(b.last());
        if t.len() > 0 {
            assert((kept_trimmed(a) + kept_trimmed(b.drop_last())).push(t) == kept_trimmed(a)
                + kept_trimmed(b.drop_last()).push(t));
        }
    }
}

/// A text that survives being written into a list and read out again: it is
/// not empty, holds no comma, and neither begins nor ends with white space.
pub open spec fn is_plain(s: Seq<char>) -> bool {
    s.len() > 0 && !s.contains(',') && !is_space(s.first()) && !is_space(s.last())
}

/// Plain texts joined with comma and space are recovered, each and in order,
/// by splitting at the commas and trimming.
pub proof fn lemma_tokens_of_joined(parts: Seq<Seq<char>>)
    requires
        forall|i: int| 0 <= i < parts.len() ==> is_plain(#[trigger] parts[i]),
    ensures
        tokens(joined(parts, seq![',', ' ']), ',') == parts,
    decreases parts.len(),
{
    let sep = seq![',', ' '];
    let none = Seq::<char>::empty();
    if parts.len() == 0 {
        lemma_kept_single(none);
        assert(trimmed(none) == none);
        assert(parts == Seq::<Seq<char>>::empty());
    } else if parts.len() == 1 {
        let only = parts[0];
        assert(is_plain(only));
        lemma_split_on_whole(only, ',');
        lemma_kept_single(only);
        assert(trimmed(only) == only);
        assert(parts == seq![only]);
    } else {
        let init = parts.drop_last();
        let last = parts.last();
        assert(is_plain(last));
        assert forall|i: int| 0 <= i < init.len() implies is_plain(#[trigger] init[i]) by {
            assert(init[i] == parts[i]);
        }
        lemma_tokens_of_joined(init);
        let x = joined(init, sep);
        let y = seq![' '] + last;
        assert(joined(parts, sep) == x + seq![','] + y);
        lemma_split_on_concat(x, y, ',');
        assert(!y.contains(',')) by {
            if y.contains(',') {
                let k = choose|k: int| 0 <= k < y.len() && y[k] == ',';
                assert(k > 0);
                assert(last[k - 1] == ',');
            }
        }
        lemma_split_on_whole(y, ',');
        lemma_kept_trimmed_concat(split_on(x, ','), seq![y]);
        assert(is_space(' '));
        assert(y.first() == ' ');
        assert(y.drop_first() == last);
        assert(trimmed(last) == last);
        assert(trimmed(y) == trimmed(y.drop_first()));
        lemma_kept_single(y);
        assert(init + seq![last] == parts);
    }
}

/// The character for the digit `d`.
pub open spec fn digit(d: nat) -> char
    recommends
        d < 10,
{
    (('0' as u8) + d) as char
}

/// `n` in decimal, without leading zeros.
pub open spec fn decimal(n: nat) -> Seq<char>
    decreases n,
{
    if n < 10 {
        seq![digit(n)]
    } else {
        decimal(n / 10).push(digit(n % 10))
    }
}

/// The number that decimal digits stand for.
pub open spec fn number_of(digits: Seq<char>) -> nat
    decreases digits.len(),
{
    if digits.len() == 0 {
        0
    } else {
        (10 * number_of(digits.drop_last()) + (digits.last() as u8 - '0' as u8)) as nat
    }
}

/// The decimal rendering of a number is made of digits, begins with a zero
/// only for zero itself, and stands for the number.
pub proof fn lemma_decimal_reads_back(n: nat)
    ensures
        decimal(n).len() >= 1,
        forall|i: int| 0 <= i < decimal(n).len() ==> '0' <= #[trigger] decimal(n)[i] <= '9',
        decimal(n)[0] == '0' <==> n == 0,
        number_of(decimal(n)) == n,
    decreases n,
{
    if n < 10 {
        assert(seq![digit(n)].drop_last() == Seq::<char>::empty());
        assert(number_of(Seq::<char>::empty()) == 0);
    } else {
        lemma_decimal_reads_back(n / 10);
        let head = decimal(n / 10);
        assert(head.push(digit(n % 10)).drop_last() == head);
    }
}

/// Renders `n` in decimal.
pub fn render_number(n: u128) -> (s: String)
    ensures
        s@ == decimal(n as nat),
    decreases n,
{
    let d: u8 = (n % 10) as u8;
    let c: char = (48u8 + d) as char;
    assert(c == digit((n % 10) as nat));
    if n < 10 {
        let mut s = String::new();
        s.push(c);
        assert(s@ == seq![c]);
        s
    } else {
        let mut s = render_number(n / 10);
        s.push(c);
        s
    }
}

/// Whether `s` begins with the characters of `prefix`.
pub open spec fn has_prefix(s: Seq<char>, prefix: Seq<char>) -> bool {
    prefix.len() <= s.len() && s.subrange(0, prefix.len() as int) == prefix
}

/// Tells whether `s` begins with `prefix`.
pub fn starts_with(s: &str, prefix: &str) -> (b: bool)
    ensures
        b == has_prefix(s@, prefix@),
{
    let sv = to_chars(s);
    let pv = to_chars(prefix);
    if pv.len() > sv.len() {
        return false;
    }
    let mut i: usize = 0;
    while i < pv.len()
        invariant
            i <= pv.len() <= sv.len(),
            sv@ == s@,
            pv@ == prefix@,
            sv@.subrange(0, i as int) == pv@.subrange(0, i as int),
        decreases pv.len() - i,
    {
        if sv[i] != pv[i] {
            assert(sv@.subrange(0, pv.len() as int)[i as int] != pv@[i as int]);
            return false;
        }
        assert(sv@.subrange(0, i + 1) == sv@.subrange(0, i as int).push(sv@[i as int]));
        assert(pv@.subrange(0, i + 1) == pv@.subrange(0, i as int).push(pv@[i as int]));
        i = i + 1;
    }
    assert(pv@.subrange(0, pv.len() as int) == pv@);
    true
}

} // verus!
