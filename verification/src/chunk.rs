//! Splitting a long line-oriented body into output chunks bounded by the
//! transport's message-size limit. The chunk under construction is a
//! buffer that grows by a newline and then the next line; when that
//! growth would overflow the limit (a fixed margin is held back for the
//! closing fence), the buffer is closed as a chunk first. Each chunk may
//! be wrapped in a fenced block, and an optional header opens the first
//! chunk. The whole computation is a pure function of its input, stated
//! below and proved of the code.

use vstd::prelude::*;
use vstd::string::StrSliceExecFns;
use vstd::string::StringExecFns;

verus! {

/// The hard size bound of one rendered chunk, in characters.
pub const CHUNK_LIMIT: usize = 4000;

/// The headroom the overflow check holds back, covering the closing
/// fence and a little slack.
pub const CHUNK_MARGIN: usize = 6;

/// A single newline.
pub open spec fn nl() -> Seq<char> {
    seq!['\n']
}

/// The fence marker that opens and closes a wrapped block.
pub open spec fn fence() -> Seq<char> {
    seq!['`', '`', '`']
}

/// The view of the optional header.
pub open spec fn header_view(h: Option<&str>) -> Option<Seq<char>> {
    match h {
        Some(t) => Some(t@),
        None => None,
    }
}

/// What the first chunk's buffer starts from: the header, then — when
/// wrapping — the opening fence on a line of its own.
pub open spec fn first_prefix(header: Option<Seq<char>>, wrap: bool) -> Seq<char> {
    (match header {
        Some(h) => h,
        None => Seq::<char>::empty(),
    }) + (if wrap {
        nl() + fence()
    } else {
        Seq::<char>::empty()
    })
}

/// What every later chunk's buffer starts from: the reopened fence.
pub open spec fn reopen_mark(wrap: bool) -> Seq<char> {
    if wrap {
        fence() + nl()
    } else {
        Seq::<char>::empty()
    }
}

/// What closes each emitted chunk.
pub open spec fn close_mark(wrap: bool) -> Seq<char> {
    if wrap {
        fence()
    } else {
        Seq::<char>::empty()
    }
}

/// The lines as the buffer accumulates them: each preceded by its
/// newline, none trailing.
pub open spec fn nl_body(lines: Seq<Seq<char>>) -> Seq<char>
    decreases lines.len(),
{
    if lines.len() == 0 {
        Seq::empty()
    } else {
        nl() + lines[0] + nl_body(lines.drop_first())
    }
}

/// The accumulation loop: the buffer grows by a newline and the next
/// line; when that would overflow the limit less the margin, the grown
/// buffer (newline included) is closed as a chunk and the line starts a
/// reopened buffer. A final non-empty buffer is closed as the last chunk.
pub open spec fn chunk_loop(lines: Seq<Seq<char>>, buf: Seq<char>, wrap: bool) -> Seq<Seq<char>>
    decreases lines.len(),
{
    if lines.len() == 0 {
        if buf.len() == 0 {
            Seq::empty()
        } else {
            seq![buf + close_mark(wrap)]
        }
    } else {
        let l = lines[0];
        let grown = buf + nl();
        if grown.len() + l.len() + CHUNK_MARGIN as int > CHUNK_LIMIT as int {
            seq![grown + close_mark(wrap)] + chunk_loop(
                lines.drop_first(),
                reopen_mark(wrap) + l,
                wrap,
            )
        } else {
            chunk_loop(lines.drop_first(), grown + l, wrap)
        }
    }
}

/// The chunks the whole input renders to; an empty line list yields none.
pub open spec fn spec_chunks(
    lines: Seq<Seq<char>>,
    header: Option<Seq<char>>,
    wrap: bool,
) -> Seq<Seq<char>> {
    if lines.len() == 0 {
        Seq::empty()
    } else {
        chunk_loop(lines, first_prefix(header, wrap), wrap)
    }
}

/// A chunk with `front` leading characters and the closing mark cut off:
/// what remains is line content.
pub open spec fn strip_chunk(c: Seq<char>, front: int, wrap: bool) -> Seq<char> {
    c.subrange(front, c.len() - close_mark(wrap).len())
}

/// The concatenated line content of a chunk stream: the first chunk
/// stripped of `front0` leading characters, every later one of the
/// reopened fence, and each of the closing mark.
pub open spec fn strip_cat(cs: Seq<Seq<char>>, front0: int, wrap: bool) -> Seq<char>
    decreases cs.len(),
{
    if cs.len() == 0 {
        Seq::empty()
    } else {
        strip_chunk(cs[0], front0, wrap) + strip_cat(
            cs.drop_first(),
            reopen_mark(wrap).len() as int,
            wrap,
        )
    }
}

/// The loop's chunks, stripped and glued, hold the incoming buffer past
/// `front` and then every remaining line behind its newline: nothing is
/// lost, duplicated or reordered.
pub proof fn lemma_loop_cover(lines: Seq<Seq<char>>, buf: Seq<char>, front: int, wrap: bool)
    requires
        0 <= front <= buf.len(),
    ensures
        strip_cat(chunk_loop(lines, buf, wrap), front, wrap) == buf.skip(front) + nl_body(lines),
    decreases lines.len(),
{
    let cs = chunk_loop(lines, buf, wrap);
    if lines.len() == 0 {
        if buf.len() == 0 {
            assert(strip_cat(cs, front, wrap) =~= buf.skip(front) + nl_body(lines));
        } else {
            assert(cs.drop_first() =~= Seq::<Seq<char>>::empty());
            assert(strip_cat(cs.drop_first(), reopen_mark(wrap).len() as int, wrap)
                =~= Seq::<char>::empty());
            assert(strip_chunk(cs[0], front, wrap) =~= buf.skip(front));
            assert(strip_cat(cs, front, wrap) =~= buf.skip(front) + nl_body(lines));
        }
    } else {
        let l = lines[0];
        let grown = buf + nl();
        if grown.len() + l.len() + CHUNK_MARGIN as int > CHUNK_LIMIT as int {
            let head = grown + close_mark(wrap);
            let cs2 = chunk_loop(lines.drop_first(), reopen_mark(wrap) + l, wrap);
            lemma_loop_cover(
                lines.drop_first(),
                reopen_mark(wrap) + l,
                reopen_mark(wrap).len() as int,
                wrap,
            );
            assert((reopen_mark(wrap) + l).skip(reopen_mark(wrap).len() as int) =~= l);
            assert(cs[0] == head);
            assert(cs.drop_first() =~= cs2);
            assert(strip_chunk(head, front, wrap) =~= buf.skip(front) + nl());
            assert(strip_cat(cs, front, wrap) =~= buf.skip(front) + nl_body(lines));
        } else {
            lemma_loop_cover(lines.drop_first(), grown + l, front, wrap);
            assert((grown + l).skip(front) =~= buf.skip(front) + nl() + l);
            assert(buf.skip(front) + nl() + l + nl_body(lines.drop_first()) =~= buf.skip(front)
                + nl_body(lines));
        }
    }
}

/// The round trip: stripping the header and the fences from every chunk
/// and concatenating what remains restores exactly the original lines,
/// each behind its newline.
pub proof fn lemma_chunks_round_trip(lines: Seq<Seq<char>>, header: Option<Seq<char>>, wrap: bool)
    ensures
        strip_cat(
            spec_chunks(lines, header, wrap),
            first_prefix(header, wrap).len() as int,
            wrap,
        ) == nl_body(lines),
{
    if lines.len() == 0 {
        assert(strip_cat(
            spec_chunks(lines, header, wrap),
            first_prefix(header, wrap).len() as int,
            wrap,
        ) =~= nl_body(lines));
    } else {
        let fp = first_prefix(header, wrap);
        lemma_loop_cover(lines, fp, fp.len() as int, wrap);
        assert(fp.skip(fp.len() as int) =~= Seq::<char>::empty());
        assert(Seq::<char>::empty() + nl_body(lines) =~= nl_body(lines));
    }
}

/// Every chunk the loop emits keeps the limit, as long as the incoming
/// buffer still has room for one newline and the closing mark, and every
/// line alone fits behind a reopened fence.
pub proof fn lemma_loop_bounded(lines: Seq<Seq<char>>, buf: Seq<char>, wrap: bool)
    requires
        buf.len() + 1 + close_mark(wrap).len() <= CHUNK_LIMIT as int,
        forall|k: int|
            0 <= k < lines.len() ==> (#[trigger] lines[k].len()) + reopen_mark(wrap).len() + 1
                + close_mark(wrap).len() <= CHUNK_LIMIT as int,
    ensures
        forall|i: int|
            0 <= i < chunk_loop(lines, buf, wrap).len() ==> (#[trigger] chunk_loop(
                lines,
                buf,
                wrap,
            )[i]).len() <= CHUNK_LIMIT as int,
    decreases lines.len(),
{
    let cs = chunk_loop(lines, buf, wrap);
    if lines.len() == 0 {
    } else {
        let l = lines[0];
        let grown = buf + nl();
        assert(l.len() + reopen_mark(wrap).len() + 1 + close_mark(wrap).len()
            <= CHUNK_LIMIT as int);
        assert forall|k: int| 0 <= k < lines.drop_first().len() implies (
        #[trigger] lines.drop_first()[k].len()) + reopen_mark(wrap).len() + 1 + close_mark(
            wrap,
        ).len() <= CHUNK_LIMIT as int by {
            assert(lines.drop_first()[k] == lines[k + 1]);
        }
        if grown.len() + l.len() + CHUNK_MARGIN as int > CHUNK_LIMIT as int {
            let cs2 = chunk_loop(lines.drop_first(), reopen_mark(wrap) + l, wrap);
            lemma_loop_bounded(lines.drop_first(), reopen_mark(wrap) + l, wrap);
            assert forall|i: int| 0 <= i < cs.len() implies (#[trigger] cs[i]).len()
                <= CHUNK_LIMIT as int by {
                if i == 0 {
                    assert(cs[0] == grown + close_mark(wrap));
                } else {
                    assert(cs[i] == cs2[i - 1]);
                }
            }
        } else {
            lemma_loop_bounded(lines.drop_first(), grown + l, wrap);
            assert forall|i: int| 0 <= i < cs.len() implies (#[trigger] cs[i]).len()
                <= CHUNK_LIMIT as int by {
                assert(cs[i] == chunk_loop(lines.drop_first(), grown + l, wrap)[i]);
            }
        }
    }
}

/// No rendered chunk exceeds the limit, as long as the header leaves
/// room for a newline and the marks, and every line alone fits behind a
/// reopened fence.
pub proof fn lemma_chunks_bounded(lines: Seq<Seq<char>>, header: Option<Seq<char>>, wrap: bool)
    requires
        first_prefix(header, wrap).len() + 1 + close_mark(wrap).len() <= CHUNK_LIMIT as int,
        forall|k: int|
            0 <= k < lines.len() ==> (#[trigger] lines[k].len()) + reopen_mark(wrap).len() + 1
                + close_mark(wrap).len() <= CHUNK_LIMIT as int,
    ensures
        forall|i: int|
            0 <= i < spec_chunks(lines, header, wrap).len() ==> (#[trigger] spec_chunks(
                lines,
                header,
                wrap,
            )[i]).len() <= CHUNK_LIMIT as int,
{
    if lines.len() > 0 {
        lemma_loop_bounded(lines, first_prefix(header, wrap), wrap);
    }
}

/// The empty input produces no chunks at all.
pub proof fn lemma_chunks_empty(header: Option<Seq<char>>, wrap: bool)
    ensures
        spec_chunks(Seq::<Seq<char>>::empty(), header, wrap) =~= Seq::<Seq<char>>::empty(),
{
}

/// Splits a line-oriented body into chunks bounded by `CHUNK_LIMIT`,
/// optionally wrapping each chunk in a fenced block, with `header`
/// opening the first chunk only. A pure function of its input: the
/// result is exactly `spec_chunks` of the lines.
pub fn format_chunked(lines: &Vec<String>, header: Option<&str>, wrap_in_block: bool) -> (r: Vec<
    String,
>)
    ensures
        r.deep_view() == spec_chunks(lines.deep_view(), header_view(header), wrap_in_block),
{
    let ghost all = lines.deep_view();
    let ghost hv = header_view(header);
    let mut out: Vec<String> = Vec::new();
    let len = lines.len();
    if len == 0 {
        proof {
            assert(out.deep_view() =~= Seq::<Seq<char>>::empty());
            assert(out.deep_view() =~= spec_chunks(all, hv, wrap_in_block));
        }
        return out;
    }
    let mut buf = String::new();
    match header {
        Some(h) => {
            buf.append(h);
        },
        None => {},
    }
    if wrap_in_block {
        buf.append("\n```");
    }
    let mut blen: u128 = buf.as_str().unicode_len() as u128;
    proof {
        reveal_strlit("\n```");
        assert("\n```"@ =~= nl() + fence());
        assert(buf@ =~= first_prefix(hv, wrap_in_block));
        assert(out.deep_view() =~= Seq::<Seq<char>>::empty());
        assert(out.deep_view() + chunk_loop(all, buf@, wrap_in_block) =~= chunk_loop(
            all,
            buf@,
            wrap_in_block,
        ));
        assert(all.skip(0) =~= all);
    }
    let mut i: usize = 0;
    while i < len
        invariant
            i <= len,
            0 < len == all.len(),
            all == lines.deep_view(),
            hv == header_view(header),
            blen as int == buf@.len(),
            blen <= 0x2_0000_0000_0000_0000u128,
            spec_chunks(all, hv, wrap_in_block) == out.deep_view() + chunk_loop(
                all.skip(i as int),
                buf@,
                wrap_in_block,
            ),
        decreases len - i,
    {
        let l = &lines[i];
        let l_len = l.as_str().unicode_len() as u128;
        let ghost pre_out = out.deep_view();
        let ghost pre_buf = buf@;
        buf.append("\n");
        blen = blen + 1;
        let ghost grown = buf@;
        proof {
            reveal_strlit("\n");
            assert("\n"@ =~= nl());
            assert(grown =~= pre_buf + nl());
            assert(all.skip(i as int)[0] == l@);
            assert(all.skip(i as int).drop_first() =~= all.skip(i + 1));
        }
        if blen + l_len + CHUNK_MARGIN as u128 > CHUNK_LIMIT as u128 {
            if wrap_in_block {
                buf.append("```");
            }
            proof {
                reveal_strlit("```");
                assert("```"@ =~= fence());
                assert(buf@ =~= grown + close_mark(wrap_in_block));
            }
            out.push(buf);
            buf = String::new();
            if wrap_in_block {
                buf.append("```\n");
            }
            buf.append(l.as_str());
            blen = (if wrap_in_block {
                4u128
            } else {
                0u128
            }) + l_len;
            proof {
                reveal_strlit("```\n");
                assert("```\n"@ =~= fence() + nl());
                assert(buf@ =~= reopen_mark(wrap_in_block) + l@);
                assert(out.deep_view() =~= pre_out.push(grown + close_mark(wrap_in_block)));
                assert(chunk_loop(all.skip(i as int), pre_buf, wrap_in_block) == seq![
                    grown + close_mark(wrap_in_block),
                ] + chunk_loop(all.skip(i + 1), reopen_mark(wrap_in_block) + l@, wrap_in_block));
                assert(pre_out + (seq![grown + close_mark(wrap_in_block)] + chunk_loop(
                    all.skip(i + 1),
                    buf@,
                    wrap_in_block,
                )) =~= out.deep_view() + chunk_loop(all.skip(i + 1), buf@, wrap_in_block));
            }
        } else {
            buf.append(l.as_str());
            blen = blen + l_len;
            proof {
                assert(buf@ =~= grown + l@);
                assert(chunk_loop(all.skip(i as int), pre_buf, wrap_in_block) == chunk_loop(
                    all.skip(i + 1),
                    grown + l@,
                    wrap_in_block,
                ));
            }
        }
        i = i + 1;
    }
    proof {
        assert(all.skip(len as int) =~= Seq::<Seq<char>>::empty());
    }
    let ghost pre_out = out.deep_view();
    let ghost pre_buf = buf@;
    if blen > 0 {
        if wrap_in_block {
            buf.append("```");
        }
        proof {
            reveal_strlit("```");
            assert("```"@ =~= fence());
            assert(buf@ =~= pre_buf + close_mark(wrap_in_block));
        }
        out.push(buf);
        proof {
            assert(chunk_loop(Seq::<Seq<char>>::empty(), pre_buf, wrap_in_block) == seq![
                pre_buf + close_mark(wrap_in_block),
            ]);
            assert(out.deep_view() =~= pre_out.push(pre_buf + close_mark(wrap_in_block)));
            assert(pre_out + seq![pre_buf + close_mark(wrap_in_block)] =~= out.deep_view());
        }
    } else {
        proof {
            assert(pre_buf.len() == 0);
            assert(chunk_loop(Seq::<Seq<char>>::empty(), pre_buf, wrap_in_block)
                =~= Seq::<Seq<char>>::empty());
            assert(pre_out + Seq::<Seq<char>>::empty() =~= pre_out);
        }
    }
    out
}

} // verus!
