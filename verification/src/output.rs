//! Per-file content blocks of the dump.
//!
//! Each file contributes a block: a blank line, a header naming the file's
//! relative path (separators normalized to forward slashes), the content
//! with right-aligned one-based line numbers, and a trailing separator.
//! Content that cannot be read or is not valid text degrades to one fixed
//! placeholder line, never to a partial dump.

use vstd::prelude::*;
use vstd::string::StringSliceAdditionalSpecFns;

use crate::bytebuf::push_bytes;
use crate::bytebuf::views_of;
use crate::filetree::FileTree;
use crate::filetree::spec_paths;

verus! {

broadcast use vstd::std_specs::vec::group_vec_axioms, vstd::seq::group_seq_axioms;

/// Position of the first newline byte, or -1 if there is none.
pub open spec fn find_newline(b: Seq<u8>) -> int
    decreases b.len(),
{
    if b.len() == 0 {
        -1
    } else if b[0] == 10 {
        0
    } else {
        let r = find_newline(b.drop_first());
        if r < 0 {
            -1
        } else {
            r + 1
        }
    }
}

/// A carriage return at the end of a line is dropped.
pub open spec fn strip_cr(line: Seq<u8>) -> Seq<u8> {
    if line.len() > 0 && line.last() == 13 {
        line.drop_last()
    } else {
        line
    }
}

/// Line splitting as a text reader does it: lines end at a newline byte, a
/// carriage return before the newline is dropped, a final fragment without
/// a newline still counts, and nothing follows a trailing newline.
pub open spec fn split_lines(b: Seq<u8>) -> Seq<Seq<u8>>
    decreases b.len(),
{
    if b.len() == 0 {
        Seq::empty()
    } else {
        let k = find_newline(b);
        if k < 0 || k >= b.len() {
            seq![strip_cr(b)]
        } else {
            seq![strip_cr(b.take(k))] + split_lines(b.skip(k + 1))
        }
    }
}

/// If byte `k` is the first newline, `find_newline` says so.
proof fn lemma_find_newline_at(s: Seq<u8>, k: int)
    requires
        0 <= k < s.len(),
        s[k] == 10,
        forall|i: int| 0 <= i < k ==> s[i] != 10,
    ensures
        find_newline(s) == k,
    decreases k,
{
    if k > 0 {
        assert forall|i: int| 0 <= i < k - 1 implies s.drop_first()[i] != 10 by {
            assert(s.drop_first()[i] == s[i + 1]);
        }
        lemma_find_newline_at(s.drop_first(), k - 1);
    }
}

/// Without a newline byte there is no first newline.
proof fn lemma_find_newline_none(s: Seq<u8>)
    requires
        forall|i: int| 0 <= i < s.len() ==> s[i] != 10,
    ensures
        find_newline(s) == -1,
    decreases s.len(),
{
    if s.len() > 0 {
        lemma_find_newline_none(s.drop_first());
    }
}

/// Splits a byte string into its lines.
pub fn split_lines_exec(b: &Vec<u8>) -> (lines: Vec<Vec<u8>>)
    ensures
        views_of(lines@) == split_lines(b@),
{
    let mut lines: Vec<Vec<u8>> = Vec::new();
    let mut start: usize = 0;
    let mut i: usize = 0;
    proof {
        assert(views_of(lines@) =~= Seq::<Seq<u8>>::empty());
        assert(Seq::<Seq<u8>>::empty() + split_lines(b@.skip(0)) =~= split_lines(b@.skip(0)));
        assert(b@.skip(0) =~= b@);
    }
    while i < b.len()
        invariant
            start <= i <= b.len(),
            forall|k: int| start <= k < i ==> b@[k] != 10,
            split_lines(b@) == views_of(lines@) + split_lines(b@.skip(start as int)),
        decreases b.len() - i,
    {
        if b[i] == 10 {
            let piece = take_stripped(b, start, i);
            let ghost lines0 = lines@;
            lines.push(piece);
            proof {
                let rest = b@.skip(start as int);
                assert forall|k: int| 0 <= k < i - start implies rest[k] != 10 by {
                    assert(rest[k] == b@[start + k]);
                }
                assert(rest[i - start] == 10);
                lemma_find_newline_at(rest, i - start);
                assert(rest.take(i - start) =~= b@.subrange(start as int, i as int));
                assert(rest.skip(i - start + 1) =~= b@.skip(i as int + 1));
                assert(split_lines(rest) == seq![strip_cr(b@.subrange(start as int, i as int))]
                    + split_lines(b@.skip(i as int + 1)));
                assert(views_of(lines@) =~= views_of(lines0) + seq![piece@]);
                assert(views_of(lines0) + split_lines(rest) =~= views_of(lines@) + split_lines(
                    b@.skip(i as int + 1),
                ));
            }
            start = i + 1;
        }
        i = i + 1;
    }
    if start < b.len() {
        let piece = take_stripped(b, start, b.len());
        let ghost lines0 = lines@;
        lines.push(piece);
        proof {
            let rest = b@.skip(start as int);
            assert forall|k: int| 0 <= k < rest.len() implies rest[k] != 10 by {
                assert(rest[k] == b@[start + k]);
            }
            lemma_find_newline_none(rest);
            assert(rest =~= b@.subrange(start as int, b@.len() as int));
            assert(split_lines(rest) == seq![strip_cr(rest)]);
            assert(views_of(lines@) =~= views_of(lines0) + seq![piece@]);
        }
    } else {
        proof {
            assert(b@.skip(start as int).len() == 0);
            assert(views_of(lines@) + split_lines(b@.skip(start as int)) =~= views_of(lines@));
        }
    }
    lines
}

/// The bytes `b[start..end]` with a trailing carriage return dropped.
fn take_stripped(b: &Vec<u8>, start: usize, end: usize) -> (piece: Vec<u8>)
    requires
        start <= end <= b@.len(),
    ensures
        piece@ == strip_cr(b@.subrange(start as int, end as int)),
{
    let slice = vstd::slice::slice_subrange(b.as_slice(), start, end);
    let mut piece = vstd::slice::slice_to_vec(slice);
    if piece.len() > 0 && piece[piece.len() - 1] == 13 {
        let _ = piece.pop();
        proof {
            assert(piece@ =~= b@.subrange(start as int, end as int).drop_last());
        }
    }
    piece
}

/// The decimal digits of `n`, most significant first.
pub open spec fn decimal_digits(n: nat) -> Seq<u8>
    decreases n,
{
    if n < 10 {
        seq![(48 + n) as u8]
    } else {
        decimal_digits(n / 10) + seq![(48 + n % 10) as u8]
    }
}

/// How many decimal digits `n` has.
pub open spec fn digit_count(n: nat) -> nat
    decreases n,
{
    if n < 10 {
        1
    } else {
        1 + digit_count(n / 10)
    }
}

/// A number has at most one digit more than its own size.
proof fn lemma_digit_count_bound(n: nat)
    ensures
        digit_count(n) <= n + 1,
    decreases n,
{
    if n >= 10 {
        lemma_digit_count_bound(n / 10);
    }
}

/// More digits never come from a smaller number.
pub proof fn lemma_digit_count_mono(m: nat, n: nat)
    requires
        m <= n,
    ensures
        digit_count(m) <= digit_count(n),
    decreases n,
{
    if m >= 10 {
        lemma_digit_count_mono(m / 10, n / 10);
    }
}

/// Appends the decimal digits of `n`.
fn push_decimal(out: &mut Vec<u8>, n: usize)
    ensures
        final(out)@ == old(out)@ + decimal_digits(n as nat),
    decreases n,
{
    if n < 10 {
        out.push(48 + (n as u8));
        proof {
            assert(old(out)@ + decimal_digits(n as nat) =~= old(out)@.push((48 + n) as u8));
        }
    } else {
        push_decimal(out, n / 10);
        out.push(48 + ((n % 10) as u8));
        proof {
            assert(old(out)@ + decimal_digits(n as nat) =~= (old(out)@ + decimal_digits(
                (n / 10) as nat,
            )).push((48 + n % 10) as u8));
        }
    }
}

fn digit_count_exec(n: usize) -> (d: usize)
    ensures
        d == digit_count(n as nat),
    decreases n,
{
    if n < 10 {
        1
    } else {
        let rest = digit_count_exec(n / 10);
        proof {
            lemma_digit_count_bound((n / 10) as nat);
        }
        rest + 1
    }
}

/// `n` space bytes.
pub open spec fn spaces(n: int) -> Seq<u8> {
    Seq::new(
        if n < 0 {
            0
        } else {
            n as nat
        },
        |i: int| 32u8,
    )
}

/// Line `i` (zero-based) of the content, prefixed with its one-based number
/// right-aligned to `width` and one space.
pub open spec fn numbered_line(i: int, width: nat, line: Seq<u8>) -> Seq<u8> {
    spaces(width - digit_count((i + 1) as nat)) + decimal_digits((i + 1) as nat) + seq![32u8]
        + line
}

/// All content lines numbered, right-aligned to the width of the count.
pub open spec fn numbered_lines(lines: Seq<Seq<u8>>) -> Seq<Seq<u8>> {
    Seq::new(lines.len(), |i: int| numbered_line(i, digit_count(lines.len() as nat), lines[i]))
}

/// The fixed text standing in for content that cannot be read or decoded.
pub open spec fn placeholder_line() -> Seq<u8> {
    "   * [Could not read file content (likely binary or permission error)]".spec_bytes()
}

/// The delimiter closing each block.
pub open spec fn separator_line() -> Seq<u8> {
    "---".spec_bytes()
}

/// Backslashes print as forward slashes.
pub open spec fn normalize_path(p: Seq<u8>) -> Seq<u8> {
    p.map_values(
        |c: u8|
            if c == 92 {
                47u8
            } else {
                c
            },
    )
}

/// The header line naming a file: a slash, its normalized relative path, a
/// colon.
pub open spec fn header_line(rel_path: Seq<u8>) -> Seq<u8> {
    seq![47u8] + normalize_path(rel_path) + seq![58u8]
}

/// The body of a block: the numbered content lines for readable text, the
/// placeholder for unreadable or undecodable content, never a mixture.
pub open spec fn body_lines(content: Option<Seq<u8>>) -> Seq<Seq<u8>> {
    match content {
        Option::None => seq![placeholder_line()],
        Option::Some(b) => if vstd::utf8::valid_utf8(b) {
            numbered_lines(split_lines(b))
        } else {
            seq![placeholder_line()]
        },
    }
}

/// The whole block for one file.
pub open spec fn file_block(rel_path: Seq<u8>, content: Option<Seq<u8>>) -> Seq<Seq<u8>> {
    seq![Seq::<u8>::empty(), header_line(rel_path)] + body_lines(content) + seq![
        separator_line(),
    ]
}

/// The view of an optionally read content buffer.
pub open spec fn content_view(c: Option<Vec<u8>>) -> Option<Seq<u8>> {
    match c {
        Option::None => Option::None,
        Option::Some(v) => Option::Some(v@),
    }
}

/// The numbered body of decodable content has exactly one output line per
/// content line, each carrying its right-aligned one-based number in the
/// width of the line count, then a space, then the unchanged line.
pub proof fn lemma_numbered_round_trip(b: Seq<u8>)
    requires
        vstd::utf8::valid_utf8(b),
    ensures
        body_lines(Some(b)).len() == split_lines(b).len(),
        forall|i: int|
            0 <= i < split_lines(b).len() ==> #[trigger] body_lines(Some(b))[i] == numbered_line(
                i,
                digit_count(split_lines(b).len() as nat),
                split_lines(b)[i],
            ),
        forall|i: int|
            0 <= i < split_lines(b).len() ==> (#[trigger] body_lines(Some(b))[i]).len()
                == digit_count(split_lines(b).len() as nat) + 1 + split_lines(b)[i].len(),
{
    let lines = split_lines(b);
    let width = digit_count(lines.len() as nat);
    assert forall|i: int| 0 <= i < lines.len() implies (#[trigger] body_lines(Some(b))[i]).len()
        == width + 1 + lines[i].len() by {
        lemma_digit_count_mono((i + 1) as nat, lines.len() as nat);
        lemma_decimal_len((i + 1) as nat);
    }
}

/// The decimal rendering of a number has exactly its digit count.
proof fn lemma_decimal_len(n: nat)
    ensures
        decimal_digits(n).len() == digit_count(n),
    decreases n,
{
    if n >= 10 {
        lemma_decimal_len(n / 10);
    }
}

/// Relies on core::str::from_utf8: it returns `Ok` exactly for byte slices
/// holding valid UTF-8.
#[verifier::external_body]
fn utf8_valid(b: &Vec<u8>) -> (r: bool)
    ensures
        r == vstd::utf8::valid_utf8(b@),
{
    core::str::from_utf8(b.as_slice()).is_ok()
}

fn placeholder_exec() -> (v: Vec<u8>)
    ensures
        v@ == placeholder_line(),
{
    vstd::slice::slice_to_vec(
        "   * [Could not read file content (likely binary or permission error)]".as_bytes(),
    )
}

fn separator_exec() -> (v: Vec<u8>)
    ensures
        v@ == separator_line(),
{
    vstd::slice::slice_to_vec("---".as_bytes())
}

/// Builds the block for one file from its relative path and the content
/// that the caller read for it (`None` when the file could not be opened).
pub fn format_file_block(rel_path: &Vec<u8>, content: &Option<Vec<u8>>) -> (lines: Vec<Vec<u8>>)
    ensures
        views_of(lines@) == file_block(rel_path@, content_view(*content)),
{
    let mut out: Vec<Vec<u8>> = Vec::new();
    out.push(Vec::new());
    let mut header: Vec<u8> = Vec::new();
    header.push(47u8);
    let mut k: usize = 0;
    while k < rel_path.len()
        invariant
            k <= rel_path.len(),
            header@ == seq![47u8] + normalize_path(rel_path@.take(k as int)),
        decreases rel_path.len() - k,
    {
        let c = rel_path[k];
        header.push(if c == 92 { 47u8 } else { c });
        proof {
            assert(header@ =~= seq![47u8] + normalize_path(rel_path@.take(k as int + 1)));
        }
        k = k + 1;
    }
    proof {
        assert(rel_path@.take(rel_path@.len() as int) =~= rel_path@);
    }
    header.push(58u8);
    proof {
        assert(header@ =~= header_line(rel_path@));
    }
    out.push(header);
    let ghost out_head = out@;
    match content {
        Option::None => {
            out.push(placeholder_exec());
            proof {
                assert(views_of(out@) =~= views_of(out_head) + body_lines(
                    content_view(*content),
                ));
            }
        },
        Option::Some(bytes) => {
            if !utf8_valid(bytes) {
                out.push(placeholder_exec());
                proof {
                    assert(views_of(out@) =~= views_of(out_head) + body_lines(
                        content_view(*content),
                    ));
                }
            } else {
                let content_lines = split_lines_exec(bytes);
                let width = digit_count_exec(content_lines.len());
                let ghost numbered = numbered_lines(split_lines(bytes@));
                let mut i: usize = 0;
                while i < content_lines.len()
                    invariant
                        i <= content_lines.len(),
                        width == digit_count(content_lines@.len() as nat),
                        views_of(content_lines@) == split_lines(bytes@),
                        numbered == numbered_lines(split_lines(bytes@)),
                        views_of(out@) == views_of(out_head) + numbered.take(i as int),
                    decreases content_lines.len() - i,
                {
                    let mut line: Vec<u8> = Vec::new();
                    let dc = digit_count_exec(i + 1);
                    proof {
                        lemma_digit_count_mono((i + 1) as nat, content_lines@.len() as nat);
                    }
                    let mut pad: usize = 0;
                    while pad < width - dc
                        invariant
                            pad <= width - dc,
                            dc <= width,
                            line@ == spaces(pad as int),
                        decreases width - dc - pad,
                    {
                        line.push(32u8);
                        proof {
                            assert(line@ =~= spaces(pad as int + 1));
                        }
                        pad = pad + 1;
                    }
                    proof {
                        assert(line@ == spaces((width - dc) as int));
                    }
                    push_decimal(&mut line, i + 1);
                    line.push(32u8);
                    push_bytes(&mut line, &content_lines[i]);
                    proof {
                        assert(line@ =~= numbered_line(
                            i as int,
                            width as nat,
                            content_lines@[i as int]@,
                        ));
                        assert(content_lines@[i as int]@ == split_lines(bytes@)[i as int]);
                        assert(line@ == numbered[i as int]);
                    }
                    let ghost out_before = out@;
                    out.push(line);
                    proof {
                        assert(views_of(out@) =~= views_of(out_before) + seq![line@]);
                        assert(views_of(out_head) + numbered.take(i as int) + seq![line@]
                            =~= views_of(out_head) + numbered.take(i as int + 1));
                    }
                    i = i + 1;
                }
                proof {
                    assert(numbered.take(numbered.len() as int) =~= numbered);
                    assert(views_of(out@) =~= views_of(out_head) + body_lines(
                        content_view(*content),
                    ));
                }
            }
        },
    }
    let ghost out_body = out@;
    out.push(separator_exec());
    proof {
        assert(views_of(out@) =~= views_of(out_body) + seq![separator_line()]);
        assert(views_of(out_head) =~= seq![Seq::<u8>::empty(), header_line(rel_path@)]);
        assert(views_of(out@) =~= file_block(rel_path@, content_view(*content)));
    }
    out
}

/// The dump of all files: one block per file path, in traversal order, with
/// the contents supplied in the same order.
pub open spec fn spec_format(paths: Seq<Seq<u8>>, contents: Seq<Option<Seq<u8>>>) -> Seq<Seq<u8>>
    decreases paths.len(),
{
    if paths.len() == 0 {
        Seq::empty()
    } else {
        file_block(paths[0], contents[0]) + spec_format(paths.drop_first(), contents.drop_first())
    }
}

/// The views of a list of optionally read contents.
pub open spec fn content_views(s: Seq<Option<Vec<u8>>>) -> Seq<Option<Seq<u8>>> {
    Seq::new(s.len(), |i: int| content_view(s[i]))
}

/// Concatenates the blocks of all file leaves of the tree, in traversal
/// order; `contents[k]` is what the caller read for the `k`-th file, `None`
/// where the file could not be opened.
pub fn format(tree: &FileTree, contents: &Vec<Option<Vec<u8>>>) -> (out: Vec<Vec<u8>>)
    requires
        contents@.len() == spec_paths(*tree, Seq::<u8>::empty()).len(),
    ensures
        views_of(out@) == spec_format(
            spec_paths(*tree, Seq::<u8>::empty()),
            content_views(contents@),
        ),
{
    let paths = tree.visit_files();
    let ghost pv = views_of(paths@);
    let ghost cv = content_views(contents@);
    let mut out: Vec<Vec<u8>> = Vec::new();
    let mut i: usize = 0;
    proof {
        assert(pv.skip(0) =~= pv);
        assert(cv.skip(0) =~= cv);
        assert(views_of(out@) + spec_format(pv, cv) =~= spec_format(pv, cv));
    }
    while i < paths.len()
        invariant
            i <= paths.len(),
            paths@.len() == contents@.len(),
            pv == views_of(paths@),
            cv == content_views(contents@),
            spec_format(pv, cv) == views_of(out@) + spec_format(
                pv.skip(i as int),
                cv.skip(i as int),
            ),
        decreases paths.len() - i,
    {
        let mut block = format_file_block(&paths[i], &contents[i]);
        let ghost block_v = views_of(block@);
        let ghost out_before = out@;
        out.append(&mut block);
        proof {
            let pr = pv.skip(i as int);
            let cr = cv.skip(i as int);
            assert(pr[0] == pv[i as int] && pv[i as int] == paths@[i as int]@);
            assert(cr[0] == cv[i as int] && cv[i as int] == content_view(contents@[i as int]));
            assert(pr.drop_first() =~= pv.skip(i as int + 1));
            assert(cr.drop_first() =~= cv.skip(i as int + 1));
            assert(spec_format(pr, cr) == file_block(pr[0], cr[0]) + spec_format(
                pv.skip(i as int + 1),
                cv.skip(i as int + 1),
            ));
            assert(views_of(out@) =~= views_of(out_before) + block_v);
            assert(views_of(out@) + spec_format(pv.skip(i as int + 1), cv.skip(i as int + 1))
                =~= views_of(out_before) + spec_format(pr, cr));
        }
        i = i + 1;
    }
    proof {
        assert(pv.skip(pv.len() as int).len() == 0);
        assert(views_of(out@) + spec_format(pv.skip(i as int), cv.skip(i as int)) =~= views_of(
            out@,
        ));
    }
    out
}

} // verus!
