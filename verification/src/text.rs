//! Text as sequences of characters: scanning, trimming, and the three ways of
//! cutting a text into pieces that the report parsers use.
//!
//! Every function here works on `&[char]` and is specified over `Seq<char>`.

use vstd::prelude::*;
use vstd::slice::slice_subrange;
use vstd::slice::slice_to_vec;

verus! {

/// The characters of `s`, in order.
pub fn chars_of(s: &str) -> (out: Vec<char>)
    ensures
        out@ == s@,
{
    let mut out: Vec<char> = Vec::new();
    for c in it: s.chars()
        invariant
            it.seq() == s@,
            out@ == it.seq().take(it.index() as int),
    {
        out.push(c);
        proof {
            assert(out@ =~= it.seq().take(it.index() + 1));
        }
    }
    proof {
        assert(out@ =~= s@);
    }
    out
}

/// Builds the string that holds exactly the characters of `chars`.
///
/// Trusted: `String::from_iter` over the characters is taken to produce a
/// string whose characters are the ones it was given, in the same order.
#[verifier::external_body]
pub(crate) fn string_of(chars: &[char]) -> (out: String)
    ensures
        out@ == chars@,
{
    String::from_iter(chars.iter())
}

/// Whether `c` is white space: the code points that carry the Unicode
/// property `White_Space`.
pub open spec fn is_whitespace(c: char) -> bool {
    let u = c as u32;
    ||| 0x09 <= u <= 0x0D
    ||| u == 0x20
    ||| u == 0x85
    ||| u == 0xA0
    ||| u == 0x1680
    ||| 0x2000 <= u <= 0x200A
    ||| u == 0x2028
    ||| u == 0x2029
    ||| u == 0x202F
    ||| u == 0x205F
    ||| u == 0x3000
}

/// The predicate "is white space".
pub open spec fn blank() -> spec_fn(char) -> bool {
    |c: char| is_whitespace(c)
}

/// The predicate "is not white space".
pub open spec fn inked() -> spec_fn(char) -> bool {
    |c: char| !is_whitespace(c)
}

/// The predicate "is a character other than `d`".
pub open spec fn other_than(d: char) -> spec_fn(char) -> bool {
    |c: char| c != d
}

/// Length of the longest prefix of `s` whose characters all satisfy `keep`.
pub open spec fn span(s: Seq<char>, keep: spec_fn(char) -> bool) -> nat
    decreases s.len(),
{
    if s.len() > 0 && keep(s[0]) {
        1 + span(s.drop_first(), keep)
    } else {
        0
    }
}

/// `span` stays within the sequence, everything before it satisfies `keep`,
/// and the character at it, if there is one, does not.
pub proof fn lemma_span(s: Seq<char>, keep: spec_fn(char) -> bool)
    ensures
        span(s, keep) <= s.len(),
        forall|i: int| 0 <= i < span(s, keep) ==> keep(#[trigger] s[i]),
        span(s, keep) < s.len() ==> !keep(s[span(s, keep) as int]),
    decreases s.len(),
{
    if s.len() > 0 && keep(s[0]) {
        let t = s.drop_first();
        lemma_span(t, keep);
        assert forall|i: int| 0 <= i < span(s, keep) implies keep(#[trigger] s[i]) by {
            if i > 0 {
                assert(s[i] == t[i - 1]);
            }
        }
        if span(s, keep) < s.len() {
            assert(s[span(s, keep) as int] == t[span(t, keep) as int]);
        }
    }
}

/// `span` is the only position with the properties that `lemma_span` states.
pub proof fn lemma_span_is(s: Seq<char>, keep: spec_fn(char) -> bool, n: nat)
    requires
        n <= s.len(),
        forall|i: int| 0 <= i < n ==> keep(#[trigger] s[i]),
        n < s.len() ==> !keep(s[n as int]),
    ensures
        span(s, keep) == n,
    decreases s.len(),
{
    if n > 0 {
        let t = s.drop_first();
        assert(keep(s[0]));
        assert forall|i: int| 0 <= i < n - 1 implies keep(#[trigger] t[i]) by {
            assert(t[i] == s[i + 1]);
        }
        lemma_span(t, keep);
        lemma_span_is(t, keep, (n - 1) as nat);
    }
}

/// Whether `c` is white space.
pub fn is_space(c: char) -> (b: bool)
    ensures
        b == is_whitespace(c),
{
    let u: u32 = c as u32;
    (0x09 <= u && u <= 0x0D) || u == 0x20 || u == 0x85 || u == 0xA0 || u == 0x1680 || (0x2000 <= u
        && u <= 0x200A) || u == 0x2028 || u == 0x2029 || u == 0x202F || u == 0x205F || u == 0x3000
}

/// The first position at or after `from` that holds `stop`, or the length of
/// `s` if there is none.
pub(crate) fn scan_until(s: &[char], from: usize, stop: char) -> (to: usize)
    requires
        from <= s@.len(),
    ensures
        from <= to <= s@.len(),
        to - from == span(s@.skip(from as int), other_than(stop)),
{
    let mut i: usize = from;
    while i < s.len() && s[i] != stop
        invariant
            from <= i <= s@.len(),
            forall|j: int| from <= j < i ==> s@[j] != stop,
        decreases s@.len() - i,
    {
        i += 1;
    }
    proof {
        lemma_span_is(s@.skip(from as int), other_than(stop), (i - from) as nat);
    }
    i
}

/// The first position at or after `from` that holds no white space, or the
/// length of `s` if there is none.
pub(crate) fn scan_blank(s: &[char], from: usize) -> (to: usize)
    requires
        from <= s@.len(),
    ensures
        from <= to <= s@.len(),
        to - from == span(s@.skip(from as int), blank()),
{
    let mut i: usize = from;
    while i < s.len() && is_space(s[i])
        invariant
            from <= i <= s@.len(),
            forall|j: int| from <= j < i ==> is_whitespace(s@[j]),
        decreases s@.len() - i,
    {
        i += 1;
    }
    proof {
        lemma_span_is(s@.skip(from as int), blank(), (i - from) as nat);
    }
    i
}

/// The first position at or after `from` that holds white space, or the length
/// of `s` if there is none.
pub(crate) fn scan_inked(s: &[char], from: usize) -> (to: usize)
    requires
        from <= s@.len(),
    ensures
        from <= to <= s@.len(),
        to - from == span(s@.skip(from as int), inked()),
{
    let mut i: usize = from;
    while i < s.len() && !is_space(s[i])
        invariant
            from <= i <= s@.len(),
            forall|j: int| from <= j < i ==> !is_whitespace(s@[j]),
        decreases s@.len() - i,
    {
        i += 1;
    }
    proof {
        lemma_span_is(s@.skip(from as int), inked(), (i - from) as nat);
    }
    i
}

/// `s` without its leading white space.
pub open spec fn trim_start(s: Seq<char>) -> Seq<char> {
    s.skip(span(s, blank()) as int)
}

/// `s` without its trailing white space.
pub open spec fn trim_end(s: Seq<char>) -> Seq<char> {
    s.take(s.len() - span(s.reverse(), blank()))
}

/// `s` without its leading and trailing white space.
pub open spec fn trim(s: Seq<char>) -> Seq<char> {
    trim_end(trim_start(s))
}

/// The part of `s` that is left when leading and trailing white space is cut
/// away.
pub fn trimmed(s: &[char]) -> (out: &[char])
    ensures
        out@ == trim(s@),
{
    let start: usize = scan_blank(s, 0);
    let mut end: usize = s.len();
    while end > start && is_space(s[end - 1])
        invariant
            start <= end <= s@.len(),
            forall|j: int| end <= j < s@.len() ==> is_whitespace(s@[j]),
        decreases end,
    {
        end -= 1;
    }
    let out = slice_subrange(s, start, end);
    proof {
        assert(s@.skip(0) =~= s@);
        let t = trim_start(s@);
        assert(t =~= s@.skip(start as int));
        let r = t.reverse();
        let n = (s@.len() - end) as nat;
        lemma_span(s@, blank());
        assert forall|i: int| 0 <= i < n implies blank()(#[trigger] r[i]) by {
            assert(r[i] == s@[s@.len() - 1 - i]);
        }
        if n < r.len() {
            assert(r[n as int] == s@[end - 1]);
            if end == start {
                assert(!is_whitespace(s@[start as int]));
            }
        }
        lemma_span_is(r, blank(), n);
        assert(out@ =~= trim(s@));
    }
    out
}

/// The views of the elements of `v`.
pub open spec fn views(v: Seq<Vec<char>>) -> Seq<Seq<char>> {
    v.map_values(|x: Vec<char>| x@)
}

/// `line` without a carriage return at its end.
pub open spec fn strip_cr(line: Seq<char>) -> Seq<char> {
    if line.len() > 0 && line.last() == '\r' {
        line.drop_last()
    } else {
        line
    }
}

/// The lines of a text. A line ends at a line feed, or at the end of the text
/// if characters are left after the last line feed. The line feed is not part
/// of the line, and neither is a carriage return just before it.
pub open spec fn lines(s: Seq<char>) -> Seq<Seq<char>>
    decreases s.len(),
{
    let n = span(s, other_than('\n'));
    if s.len() == 0 {
        seq![]
    } else if n >= s.len() {
        seq![s]
    } else {
        seq![strip_cr(s.take(n as int))] + lines(s.skip(n as int + 1))
    }
}

/// The lines that follow the first `n`: none if there are no more than `n`.
pub open spec fn after_header(ls: Seq<Seq<char>>, n: nat) -> Seq<Seq<char>> {
    if n <= ls.len() {
        ls.skip(n as int)
    } else {
        seq![]
    }
}

/// The lines of `s`.
pub fn split_lines(s: &[char]) -> (out: Vec<Vec<char>>)
    ensures
        views(out@) == lines(s@),
{
    let mut out: Vec<Vec<char>> = Vec::new();
    let mut pos: usize = 0;
    proof {
        assert(s@.skip(0) =~= s@);
        assert(views(out@) + lines(s@) =~= lines(s@));
    }
    while pos < s.len()
        invariant
            pos <= s@.len(),
            views(out@) + lines(s@.skip(pos as int)) == lines(s@),
        decreases s@.len() - pos,
    {
        let ghost rest = s@.skip(pos as int);
        let ghost before = views(out@);
        let end: usize = scan_until(s, pos, '\n');
        if end >= s.len() {
            let line = slice_to_vec(slice_subrange(s, pos, end));
            out.push(line);
            proof {
                assert(line@ =~= rest);
                assert(views(out@) =~= before.push(rest));
                assert(lines(rest) =~= seq![rest]);
                assert(s@.skip(end as int).len() == 0);
                assert(lines(s@.skip(end as int)) =~= Seq::<Seq<char>>::empty());
                assert(before.push(rest) + Seq::<Seq<char>>::empty() =~= before + seq![rest]);
            }
            pos = end;
        } else {
            let mut stop: usize = end;
            if stop > pos && s[stop - 1] == '\r' {
                stop -= 1;
            }
            let line = slice_to_vec(slice_subrange(s, pos, stop));
            out.push(line);
            proof {
                let n = (end - pos) as int;
                assert(rest.take(n) =~= s@.subrange(pos as int, end as int));
                assert(line@ =~= strip_cr(rest.take(n)));
                assert(views(out@) =~= before.push(line@));
                assert(rest.skip(n + 1) =~= s@.skip(end + 1));
                assert(before.push(line@) + lines(s@.skip(end + 1)) =~= before + (seq![line@]
                    + lines(s@.skip(end + 1))));
            }
            pos = end + 1;
        }
    }
    proof {
        assert(s@.skip(pos as int).len() == 0);
        assert(views(out@) + Seq::<Seq<char>>::empty() =~= views(out@));
    }
    out
}

/// The pieces of `s` between occurrences of `d`: one more piece than there are
/// occurrences, some of them possibly empty.
pub open spec fn split(s: Seq<char>, d: char) -> Seq<Seq<char>>
    decreases s.len(),
{
    let n = span(s, other_than(d));
    if n >= s.len() {
        seq![s]
    } else {
        seq![s.take(n as int)] + split(s.skip(n as int + 1), d)
    }
}

/// The pieces of `s` that `d` ends: as `split`, but an empty last piece does
/// not count.
pub open spec fn split_terminator(s: Seq<char>, d: char) -> Seq<Seq<char>> {
    let pieces = split(s, d);
    if pieces.last().len() == 0 {
        pieces.drop_last()
    } else {
        pieces
    }
}

/// `split` always yields a piece.
pub proof fn lemma_split_nonempty(s: Seq<char>, d: char)
    ensures
        split(s, d).len() >= 1,
    decreases s.len(),
{
    let n = span(s, other_than(d));
    if n < s.len() {
        lemma_split_nonempty(s.skip(n as int + 1), d);
    }
}

/// The pieces of `s` that `d` ends, each without its leading and trailing
/// white space.
pub open spec fn fields(s: Seq<char>, d: char) -> Seq<Seq<char>> {
    split_terminator(s, d).map_values(|f: Seq<char>| trim(f))
}

/// The pieces of `s` that `d` ends, each without its leading and trailing
/// white space.
pub fn split_fields(s: &[char], d: char) -> (out: Vec<Vec<char>>)
    ensures
        views(out@) == fields(s@, d),
{
    let ghost tr = |f: Seq<char>| trim(f);
    let mut out: Vec<Vec<char>> = Vec::new();
    let mut pos: usize = 0;
    let mut end: usize = scan_until(s, pos, d);
    proof {
        assert(s@.skip(0) =~= s@);
    }
    while end < s.len()
        invariant
            pos <= end <= s@.len(),
            end - pos == span(s@.skip(pos as int), other_than(d)),
            tr == |f: Seq<char>| trim(f),
            views(out@) + split(s@.skip(pos as int), d).map_values(tr) == split(s@, d).map_values(
                tr,
            ),
            split_terminator(s@, d) == if split(s@.skip(pos as int), d).last().len() == 0 {
                split(s@, d).drop_last()
            } else {
                split(s@, d)
            },
        decreases s@.len() - pos,
    {
        let ghost rest = s@.skip(pos as int);
        let ghost before = views(out@);
        let field = slice_to_vec(trimmed(slice_subrange(s, pos, end)));
        out.push(field);
        proof {
            let n = (end - pos) as int;
            let next = s@.skip(end + 1);
            assert(rest.take(n) =~= s@.subrange(pos as int, end as int));
            assert(rest.skip(n + 1) =~= next);
            assert(split(rest, d) =~= seq![rest.take(n)] + split(next, d));
            lemma_split_nonempty(next, d);
            assert(split(rest, d).last() == split(next, d).last());
            assert(views(out@) =~= before.push(field@));
            assert(split(rest, d).map_values(tr) =~= seq![field@] + split(next, d).map_values(tr));
            assert(before.push(field@) + split(next, d).map_values(tr) =~= before + (seq![field@]
                + split(next, d).map_values(tr)));
        }
        pos = end + 1;
        end = scan_until(s, pos, d);
    }
    let ghost rest = s@.skip(pos as int);
    let ghost before = views(out@);
    proof {
        assert(split(rest, d) =~= seq![rest]);
        lemma_split_nonempty(s@, d);
    }
    if end > pos {
        let field = slice_to_vec(trimmed(slice_subrange(s, pos, end)));
        out.push(field);
        proof {
            assert(rest =~= s@.subrange(pos as int, end as int));
            assert(views(out@) =~= before.push(field@));
            assert(split(rest, d).map_values(tr) =~= seq![field@]);
            assert(before.push(field@) =~= before + seq![field@]);
        }
    } else {
        proof {
            assert(rest.len() == 0);
            let all = split(s@, d).map_values(tr);
            assert(split(rest, d).map_values(tr) =~= seq![trim(rest)]);
            assert(all == before + seq![trim(rest)]);
            assert(before =~= all.drop_last());
            assert(all.drop_last() =~= split(s@, d).drop_last().map_values(tr));
        }
    }
    out
}

/// The words of `s`: its longest runs of characters that are not white space.
pub open spec fn words(s: Seq<char>) -> Seq<Seq<char>>
    decreases s.len(),
    via words_get_shorter
{
    let t = trim_start(s);
    let n = span(t, inked());
    if t.len() == 0 {
        seq![]
    } else {
        seq![t.take(n as int)] + words(t.skip(n as int))
    }
}

/// What is left after the first word is shorter than the whole, since a word
/// has at least one character.
#[via_fn]
proof fn words_get_shorter(s: Seq<char>) {
    let t = trim_start(s);
    if t.len() > 0 {
        lemma_span(s, blank());
        lemma_span(t, inked());
        assert(t[0] == s[span(s, blank()) as int]);
        assert(inked()(t[0]));
    }
}

/// The words of `s`.
pub fn split_words(s: &[char]) -> (out: Vec<Vec<char>>)
    ensures
        views(out@) == words(s@),
{
    let mut out: Vec<Vec<char>> = Vec::new();
    let mut pos: usize = 0;
    proof {
        assert(s@.skip(0) =~= s@);
    }
    loop
        invariant
            pos <= s@.len(),
            views(out@) + words(s@.skip(pos as int)) == words(s@),
        ensures
            views(out@) == words(s@),
        decreases s@.len() - pos,
    {
        let ghost rest = s@.skip(pos as int);
        let ghost before = views(out@);
        let start: usize = scan_blank(s, pos);
        proof {
            assert(trim_start(rest) =~= s@.skip(start as int));
        }
        if start >= s.len() {
            proof {
                assert(words(rest) =~= Seq::<Seq<char>>::empty());
                assert(before + Seq::<Seq<char>>::empty() =~= before);
            }
            break ;
        }
        let end: usize = scan_inked(s, start);
        let word = slice_to_vec(slice_subrange(s, start, end));
        out.push(word);
        proof {
            let t = s@.skip(start as int);
            let n = (end - start) as int;
            lemma_span(rest, blank());
            assert(!is_whitespace(t[0]));
            assert(n > 0);
            assert(t.take(n) =~= word@);
            assert(t.skip(n) =~= s@.skip(end as int));
            assert(views(out@) =~= before.push(word@));
            assert(before.push(word@) + words(s@.skip(end as int)) =~= before + (seq![word@]
                + words(s@.skip(end as int))));
        }
        pos = end;
    }
    out
}

/// The pieces of `parts` in a row, with one space between neighbours.
pub open spec fn join(parts: Seq<Seq<char>>) -> Seq<char>
    decreases parts.len(),
{
    if parts.len() == 0 {
        seq![]
    } else if parts.len() == 1 {
        parts[0]
    } else {
        join(parts.drop_last()) + seq![' '] + parts.last()
    }
}

/// The pieces of `parts` from position `from` on, in a row, with one space
/// between neighbours.
pub(crate) fn join_from(parts: &Vec<Vec<char>>, from: usize) -> (out: Vec<char>)
    requires
        from <= parts@.len(),
    ensures
        out@ == join(views(parts@).skip(from as int)),
{
    let ghost all = views(parts@).skip(from as int);
    let mut out: Vec<char> = Vec::new();
    let mut i: usize = from;
    while i < parts.len()
        invariant
            from <= i <= parts@.len(),
            all == views(parts@).skip(from as int),
            out@ == join(all.take(i - from)),
        decreases parts@.len() - i,
    {
        let ghost sofar = all.take(i - from);
        let ghost old_out = out@;
        if i > from {
            out.push(' ');
        }
        let part = &parts[i];
        let mut j: usize = 0;
        while j < part.len()
            invariant
                j <= part@.len(),
                out@ == (if i > from {
                    old_out + seq![' ']
                } else {
                    old_out
                }) + part@.take(j as int),
            decreases part@.len() - j,
        {
            out.push(part[j]);
            proof {
                assert(part@.take(j + 1) =~= part@.take(j as int).push(part@[j as int]));
            }
            j += 1;
        }
        proof {
            let next = all.take(i - from + 1);
            assert(part@.take(j as int) =~= part@);
            assert(next.drop_last() =~= sofar);
            assert(next.last() == part@);
            if i == from {
                assert(sofar.len() == 0);
                assert(out@ =~= part@);
            }
        }
        i += 1;
    }
    proof {
        assert(all.take(i - from) =~= all);
    }
    out
}

} // verus!
