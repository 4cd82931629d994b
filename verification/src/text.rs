//! Wrapping text into numbered or plain lines of a fixed width.
use crate::number::{decimal, digit_char};
use crate::primorial::{chunked, concat, lemma_chunked_pieces};
use vstd::arithmetic::div_mod::{lemma_div_multiples_vanish_fancy, lemma_fundamental_div_mod};
use vstd::prelude::*;

verus! {

/// How output text is laid out: a number gets numbered lines, a message plain ones.
#[derive(Debug, Clone, Copy, PartialEq, Eq)]
pub enum OutputMode {
    Message,
    Number,
}

// ---------------------------------------------------------------------------
// Mathematical model
// ---------------------------------------------------------------------------

/// The line shown for the `index`-th piece (counted from 0) of the text.
pub open spec fn wrap_line(piece: Seq<char>, index: nat, mode: OutputMode) -> Seq<char> {
    match mode {
        OutputMode::Number => decimal(index + 1) + seq!['~', ' '] + piece,
        OutputMode::Message => piece,
    }
}

/// The lines for a sequence of pieces.
pub open spec fn wrap_lines(pieces: Seq<Seq<char>>, mode: OutputMode) -> Seq<Seq<char>> {
    Seq::new(pieces.len(), |k: int| wrap_line(pieces[k], k as nat, mode))
}

/// Lines joined by newline characters.
pub open spec fn join_lines(lines: Seq<Seq<char>>) -> Seq<char>
    decreases lines.len(),
{
    if lines.len() == 0 {
        Seq::empty()
    } else if lines.len() == 1 {
        lines[0]
    } else {
        join_lines(lines.drop_last()) + seq!['\n'] + lines.last()
    }
}

/// The text cut into pieces of `width` characters, each piece made a line, and
/// the lines joined by newlines.
pub open spec fn wrapped(s: Seq<char>, width: nat, mode: OutputMode) -> Seq<char> {
    join_lines(wrap_lines(chunked(s, width), mode))
}

/// The text with its newline characters taken out.
pub open spec fn without_newlines(t: Seq<char>) -> Seq<char>
    decreases t.len(),
{
    if t.len() == 0 {
        t
    } else if t.last() == '\n' {
        without_newlines(t.drop_last())
    } else {
        without_newlines(t.drop_last()).push(t.last())
    }
}

// ---------------------------------------------------------------------------
// Laws
// ---------------------------------------------------------------------------

proof fn lemma_without_newlines_append(a: Seq<char>, b: Seq<char>)
    ensures
        without_newlines(a + b) == without_newlines(a) + without_newlines(b),
    decreases b.len(),
{
    if b.len() == 0 {
        assert(a + b =~= a);
        assert(without_newlines(a) + without_newlines(b) =~= without_newlines(a));
    } else {
        lemma_without_newlines_append(a, b.drop_last());
        assert((a + b).drop_last() =~= a + b.drop_last());
        assert((a + b).last() == b.last());
        if b.last() != '\n' {
            assert(without_newlines(a) + without_newlines(b) =~= (without_newlines(a)
                + without_newlines(b.drop_last())).push(b.last()));
        }
    }
}

proof fn lemma_without_newlines_plain(t: Seq<char>)
    requires
        !t.contains('\n'),
    ensures
        without_newlines(t) == t,
    decreases t.len(),
{
    if t.len() > 0 {
        assert(t.last() == t[t.len() - 1]);
        assert(!t.drop_last().contains('\n')) by {
            if t.drop_last().contains('\n') {
                let k = choose|k: int| 0 <= k < t.drop_last().len() && t.drop_last()[k] == '\n';
                assert(t[k] == '\n');
            }
        }
        lemma_without_newlines_plain(t.drop_last());
        assert(t.drop_last().push(t.last()) =~= t);
    }
}

proof fn lemma_concat_last<A>(c: Seq<Seq<A>>)
    requires
        c.len() > 0,
    ensures
        concat(c) == concat(c.drop_last()) + c.last(),
    decreases c.len(),
{
    if c.len() == 1 {
        assert(c.drop_first() =~= Seq::<Seq<A>>::empty());
        assert(c.drop_last() =~= Seq::<Seq<A>>::empty());
        assert(concat(c) =~= c[0] + Seq::<A>::empty());
        assert(concat(c.drop_last()) + c.last() =~= Seq::<A>::empty() + c[0]);
    } else {
        lemma_concat_last(c.drop_first());
        assert(c.drop_first().drop_last() =~= c.drop_last().drop_first());
        assert(c.drop_first().last() == c.last());
        assert(c.drop_last()[0] == c[0]);
        assert(concat(c.drop_last()) == c[0] + concat(c.drop_last().drop_first()));
        assert(concat(c) =~= concat(c.drop_last()) + c.last());
    }
}

proof fn lemma_concat_contains<A>(c: Seq<Seq<A>>, k: int, x: A)
    requires
        0 <= k < c.len(),
        c[k].contains(x),
    ensures
        concat(c).contains(x),
    decreases c.len(),
{
    if k == 0 {
        let i = choose|i: int| 0 <= i < c[0].len() && c[0][i] == x;
        assert(concat(c)[i] == x);
    } else {
        assert(c.drop_first()[k - 1] == c[k]);
        lemma_concat_contains(c.drop_first(), k - 1, x);
        let i = choose|i: int| 0 <= i < concat(c.drop_first()).len() && concat(c.drop_first())[i] == x;
        assert(concat(c)[c[0].len() + i] == x);
    }
}

/// Lines without newlines, joined by newlines, lose only the newlines.
proof fn lemma_join_without_newlines(lines: Seq<Seq<char>>)
    requires
        forall|k: int| 0 <= k < lines.len() ==> !(#[trigger] lines[k]).contains('\n'),
    ensures
        without_newlines(join_lines(lines)) == concat(lines),
    decreases lines.len(),
{
    if lines.len() == 0 {
    } else if lines.len() == 1 {
        lemma_without_newlines_plain(lines[0]);
        lemma_concat_last(lines);
        assert(lines.drop_last() =~= Seq::<Seq<char>>::empty());
        assert(concat(lines) =~= Seq::<char>::empty() + lines[0]);
    } else {
        let init = lines.drop_last();
        assert forall|k: int| 0 <= k < init.len() implies !(#[trigger] init[k]).contains('\n') by {
            assert(init[k] == lines[k]);
        }
        lemma_join_without_newlines(init);
        lemma_without_newlines_plain(lines.last());
        lemma_without_newlines_append(join_lines(init) + seq!['\n'], lines.last());
        lemma_without_newlines_append(join_lines(init), seq!['\n']);
        assert(seq!['\n'].drop_last() =~= Seq::<char>::empty());
        assert(seq!['\n'].last() == '\n');
        assert(without_newlines(Seq::<char>::empty()) == Seq::<char>::empty());
        assert(without_newlines(seq!['\n']) =~= Seq::<char>::empty());
        lemma_concat_last(lines);
        assert(without_newlines(join_lines(lines)) =~= concat(init) + lines.last());
    }
}

/// There are `ceil(len / size)` pieces.
proof fn lemma_chunked_count(s: Seq<char>, size: nat)
    requires
        size > 0,
    ensures
        chunked(s, size).len() == (s.len() + size - 1) / (size as int),
    decreases s.len(),
{
    let w = size as int;
    if s.len() == 0 {
        lemma_div_multiples_vanish_fancy(0, w - 1, w);
    } else if s.len() <= size {
        lemma_div_multiples_vanish_fancy(1, s.len() - 1, w);
    } else {
        lemma_chunked_count(s.skip(w), size);
        let q = (s.len() - 1) / w;
        let r = (s.len() - 1) % w;
        lemma_fundamental_div_mod(s.len() - 1, w);
        lemma_div_multiples_vanish_fancy(q, r, w);
        lemma_div_multiples_vanish_fancy(q + 1, r, w);
        assert(s.len() - 1 == w * q + r);
        assert(s.len() + w - 1 == w * (q + 1) + r) by (nonlinear_arith)
            requires
                s.len() - 1 == w * q + r,
        {
        }
        assert(s.skip(w).len() + w - 1 == s.len() - 1);
    }
}

/// In `Message` mode the lines are the pieces themselves: there are
/// `ceil(len / width)` of them, each of `width` characters but the last, which
/// has between 1 and `width`; and taking the newlines out of the wrapped text
/// gives back a text that had none.
pub proof fn lemma_wrapped_message(s: Seq<char>, width: nat)
    requires
        width > 0,
    ensures
        wrap_lines(chunked(s, width), OutputMode::Message) == chunked(s, width),
        chunked(s, width).len() == (s.len() + width - 1) / (width as int),
        forall|k: int| 0 <= k < chunked(s, width).len() ==> 0 < #[trigger] chunked(s, width)[k].len() <= width,
        forall|k: int| 0 <= k < chunked(s, width).len() - 1 ==> #[trigger] chunked(s, width)[k].len() == width,
        !s.contains('\n') ==> without_newlines(wrapped(s, width, OutputMode::Message)) == s,
{
    let c = chunked(s, width);
    assert(wrap_lines(c, OutputMode::Message) =~= c);
    lemma_chunked_pieces(s, width);
    lemma_chunked_count(s, width);
    if !s.contains('\n') {
        assert forall|k: int| 0 <= k < c.len() implies !(#[trigger] c[k]).contains('\n') by {
            if c[k].contains('\n') {
                lemma_concat_contains(c, k, '\n');
            }
        }
        lemma_join_without_newlines(c);
    }
}

/// The `k`-th piece is the `k`-th run of `size` characters of the text.
proof fn lemma_chunk_at(s: Seq<char>, size: nat, k: int)
    requires
        size > 0,
        0 <= k < chunked(s, size).len(),
    ensures
        k * size < s.len(),
        chunked(s, size)[k] == s.subrange(k * size, if (k + 1) * size <= s.len() {
            (k + 1) * size
        } else {
            s.len() as int
        }),
    decreases s.len(),
{
    let w = size as int;
    if s.len() <= size {
        assert(k == 0);
        assert(s.subrange(0, s.len() as int) =~= s);
    } else if k == 0 {
        assert(s.take(w) =~= s.subrange(0, w));
    } else {
        let rest = s.skip(w);
        assert(chunked(s, size)[k] == chunked(rest, size)[k - 1]);
        lemma_chunk_at(rest, size, k - 1);
        assert((k - 1) * w + w == k * w && k * w + w == (k + 1) * w) by (nonlinear_arith);
        let end = if k * w <= rest.len() { k * w } else { rest.len() as int };
        assert(rest.subrange((k - 1) * w, end) =~= s.subrange(k * w, end + w));
    }
}

proof fn lemma_decimal_no_newline(n: nat)
    ensures
        !decimal(n).contains('\n'),
{
    crate::number::lemma_decimal_digits(n);
    if decimal(n).contains('\n') {
        let i = choose|i: int| 0 <= i < decimal(n).len() && decimal(n)[i] == '\n';
        assert(crate::number::char_digit(decimal(n)[i]) is Some);
    }
}

/// What `string_wrap` makes of a text: `ceil(len / width)` lines, the `k`-th of
/// which (counted from 0) is the label `k+1~ ` in `Number` mode (nothing in
/// `Message` mode) followed by the characters `k * width` up to
/// `(k + 1) * width` of the text (up to its end for the last line); the pieces
/// put together give back the text, and for a text without newlines, taking the
/// newlines out of the wrapped text leaves exactly the lines put together.
pub proof fn lemma_wrapped_lines(s: Seq<char>, width: nat, mode: OutputMode)
    requires
        width > 0,
    ensures
        wrap_lines(chunked(s, width), mode).len() == (s.len() + width - 1) / (width as int),
        forall|k: int|
            0 <= k < wrap_lines(chunked(s, width), mode).len() ==> #[trigger] wrap_lines(chunked(s, width), mode)[k]
                == (match mode {
                OutputMode::Number => decimal((k + 1) as nat) + seq!['~', ' '],
                OutputMode::Message => Seq::<char>::empty(),
            }) + s.subrange(k * width, if (k + 1) * width <= s.len() {
                (k + 1) * width
            } else {
                s.len() as int
            }),
        concat(chunked(s, width)) == s,
        wrapped(s, width, mode) == join_lines(wrap_lines(chunked(s, width), mode)),
        !s.contains('\n') ==> without_newlines(wrapped(s, width, mode)) == concat(wrap_lines(chunked(s, width), mode)),
{
    let c = chunked(s, width);
    let lines = wrap_lines(c, mode);
    lemma_chunked_pieces(s, width);
    lemma_chunked_count(s, width);
    assert forall|k: int| 0 <= k < lines.len() implies #[trigger] lines[k] == (match mode {
        OutputMode::Number => decimal((k + 1) as nat) + seq!['~', ' '],
        OutputMode::Message => Seq::<char>::empty(),
    }) + s.subrange(k * width, if (k + 1) * width <= s.len() {
        (k + 1) * width
    } else {
        s.len() as int
    }) by {
        lemma_chunk_at(s, width, k);
        match mode {
            OutputMode::Number => {},
            OutputMode::Message => {
                assert(Seq::<char>::empty() + c[k] =~= c[k]);
            },
        }
    }
    if !s.contains('\n') {
        assert forall|k: int| 0 <= k < lines.len() implies !(#[trigger] lines[k]).contains('\n') by {
            if c[k].contains('\n') {
                lemma_concat_contains(c, k, '\n');
            }
            if lines[k].contains('\n') {
                let i = choose|i: int| 0 <= i < lines[k].len() && lines[k][i] == '\n';
                match mode {
                    OutputMode::Number => {
                        let label = decimal((k + 1) as nat) + seq!['~', ' '];
                        lemma_decimal_no_newline((k + 1) as nat);
                        if i < decimal((k + 1) as nat).len() {
                            assert(decimal((k + 1) as nat)[i] == '\n');
                        } else if i < label.len() {
                        } else {
                            assert(c[k][i - label.len()] == '\n');
                        }
                    },
                    OutputMode::Message => {
                        assert(c[k][i] == '\n');
                    },
                }
            }
        }
        lemma_join_without_newlines(lines);
    }
}

// ---------------------------------------------------------------------------
// Executable functions
// ---------------------------------------------------------------------------

/// `String::push`: appends one character.
#[verifier::external_body]
pub(crate) fn string_push(s: &mut String, c: char)
    ensures
        final(s)@ == old(s)@.push(c),
{
    s.push(c);
}

/// The character of a decimal digit.
fn digit_to_char(d: usize) -> (c: char)
    requires
        d < 10,
    ensures
        c == digit_char(d as nat),
{
    match d {
        0 => '0',
        1 => '1',
        2 => '2',
        3 => '3',
        4 => '4',
        5 => '5',
        6 => '6',
        7 => '7',
        8 => '8',
        _ => '9',
    }
}

/// The decimal representation of `n`.
pub fn usize_to_decimal(n: usize) -> (r: Vec<char>)
    ensures
        r@ == decimal(n as nat),
    decreases n,
{
    if n < 10 {
        let r = vec![digit_to_char(n)];
        assert(r@ =~= decimal(n as nat));
        r
    } else {
        let mut r = usize_to_decimal(n / 10);
        r.push(digit_to_char(n % 10));
        r
    }
}

/// The characters of a text.
pub fn chars_of(s: &str) -> (r: Vec<char>)
    ensures
        r@ == s@,
{
    broadcast use vstd::string::group_string_axioms;

    let mut r: Vec<char> = Vec::new();
    for c in iter: s.chars()
        invariant
            iter.seq() == s@,
            r@ == s@.take(iter.index() as int),
    {
        r.push(c);
        assert(r@ =~= s@.take(iter.index() + 1));
    }
    assert(r@ =~= s@);
    r
}

/// Cuts `string` into pieces of `chunk_width` characters; in `Number` mode each
/// piece is preceded by its number, counted from 1, and `"~ "`. The pieces are
/// joined by newlines.
pub fn string_wrap(string: &String, chunk_width: u16, output_mode: &OutputMode) -> (r: String)
    requires
        chunk_width > 0,
    ensures
        r@ == wrapped(string@, chunk_width as nat, *output_mode),
{
    let cs = chars_of(string.as_str());
    let width = chunk_width as usize;
    let len = cs.len();
    let mut out = String::new();
    let mut start: usize = 0;
    let mut count: usize = 0;
    let ghost w = width as nat;
    let ghost mut done: Seq<Seq<char>> = Seq::empty();
    proof {
        assert(cs@.skip(0) =~= cs@);
        assert(done + chunked(cs@.skip(0), w) =~= chunked(cs@, w));
        assert(wrap_lines(done, *output_mode) =~= Seq::<Seq<char>>::empty());
    }
    while start < len
        invariant
            len == cs.len(),
            w == width,
            width > 0,
            start <= len,
            count == done.len(),
            count <= start,
            done + chunked(cs@.skip(start as int), w) == chunked(cs@, w),
            out@ == join_lines(wrap_lines(done, *output_mode)),
        decreases len - start,
    {
        let end = if len - start > width {
            start + width
        } else {
            len
        };
        let ghost old_out = out@;
        let ghost rest = cs@.skip(start as int);
        if count > 0 {
            string_push(&mut out, '\n');
        }
        let ghost line_start = out@;
        match output_mode {
            OutputMode::Number => {
                let label = usize_to_decimal(count + 1);
                let mut k: usize = 0;
                while k < label.len()
                    invariant
                        k <= label.len(),
                        out@ == line_start + label@.take(k as int),
                    decreases label.len() - k,
                {
                    string_push(&mut out, label[k]);
                    assert(label@.take(k + 1) =~= label@.take(k as int).push(label@[k as int]));
                    k = k + 1;
                }
                string_push(&mut out, '~');
                string_push(&mut out, ' ');
                assert(label@.take(label.len() as int) =~= label@);
            },
            OutputMode::Message => {},
        }
        let ghost piece_start = out@;
        let mut k: usize = start;
        while k < end
            invariant
                start <= k <= end <= len,
                len == cs.len(),
                out@ == piece_start + cs@.subrange(start as int, k as int),
            decreases end - k,
        {
            string_push(&mut out, cs[k]);
            assert(cs@.subrange(start as int, k + 1) =~= cs@.subrange(start as int, k as int).push(
                cs@[k as int],
            ));
            k = k + 1;
        }
        proof {
            let piece = cs@.subrange(start as int, end as int);
            let line = wrap_line(piece, count as nat, *output_mode);
            match *output_mode {
                OutputMode::Number => {
                    assert(out@ =~= line_start + line);
                },
                OutputMode::Message => {
                    assert(out@ =~= line_start + line);
                },
            }
            if rest.len() <= w {
                assert(piece =~= rest);
                assert(cs@.skip(end as int) =~= Seq::<char>::empty());
                assert(chunked(cs@.skip(end as int), w) =~= Seq::<Seq<char>>::empty());
            } else {
                assert(piece =~= rest.take(w as int));
                assert(rest.skip(w as int) =~= cs@.skip(end as int));
            }
            let new_done = done.push(piece);
            assert(new_done + chunked(cs@.skip(end as int), w) =~= done + chunked(rest, w));
            let lines = wrap_lines(done, *output_mode);
            assert(wrap_lines(new_done, *output_mode) =~= lines.push(line));
            if count > 0 {
                assert(lines.push(line).drop_last() =~= lines);
                assert(out@ =~= old_out + seq!['\n'] + line);
            } else {
                assert(out@ =~= line);
            }
            done = new_done;
        }
        start = end;
        count = count + 1;
    }
    proof {
        assert(chunked(cs@.skip(start as int), w) =~= Seq::<Seq<char>>::empty());
        assert(done + Seq::<Seq<char>>::empty() =~= done);
    }
    out
}

} // verus!
