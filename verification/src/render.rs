//! Response rendering: buffered responses become one `role: content`
//! line per choice; streamed fragments concatenate, in arrival order
//! and with no separators, into the answer text.

use vstd::prelude::*;
use crate::json::buffered_choices_of;
use crate::json::parse_buffered_choices;

verus! {

/// One rendered buffered-mode line: `role`, `: `, `content`, line feed.
pub open spec fn rendered_line(role: Seq<u8>, content: Seq<u8>) -> Seq<u8> {
    role + seq![58u8, 32u8] + content + seq![10u8]
}

/// Buffered-mode rendering: the lines of all choices, in their order.
pub open spec fn render_buffered_spec(choices: Seq<(Seq<u8>, Seq<u8>)>) -> Seq<u8>
    decreases choices.len(),
{
    if choices.len() == 0 {
        Seq::empty()
    } else {
        render_buffered_spec(choices.drop_last()) + rendered_line(
            choices.last().0,
            choices.last().1,
        )
    }
}

/// Appends the bytes of `src` to `out`.
fn append_bytes(out: &mut Vec<u8>, src: &Vec<u8>)
    ensures
        final(out)@ == old(out)@ + src@,
{
    let mut i: usize = 0;
    while i < src.len()
        invariant
            i <= src@.len(),
            out@ == old(out)@ + src@.take(i as int),
        decreases src@.len() - i,
    {
        out.push(src[i]);
        proof {
            assert(old(out)@ + src@.take(i + 1) =~= (old(out)@ + src@.take(i as int)).push(
                src@[i as int],
            ));
        }
        i = i + 1;
    }
    proof {
        assert(old(out)@ + src@.take(src@.len() as int) =~= old(out)@ + src@);
    }
}

/// Renders parsed buffered choices: one `role: content` line each.
pub fn render_buffered(choices: &Vec<(Vec<u8>, Vec<u8>)>) -> (out: Vec<u8>)
    ensures
        out@ == render_buffered_spec(choices.deep_view()),
{
    let ghost dv = choices.deep_view();
    let mut out: Vec<u8> = Vec::new();
    let mut i: usize = 0;
    proof {
        assert(dv.take(0) =~= Seq::<(Seq<u8>, Seq<u8>)>::empty());
    }
    while i < choices.len()
        invariant
            i <= choices@.len(),
            dv == choices.deep_view(),
            out@ == render_buffered_spec(dv.take(i as int)),
        decreases choices@.len() - i,
    {
        let ghost pre = out@;
        append_bytes(&mut out, &choices[i].0);
        out.push(58u8);
        out.push(32u8);
        append_bytes(&mut out, &choices[i].1);
        out.push(10u8);
        proof {
            assert(dv.take(i + 1).drop_last() =~= dv.take(i as int));
            assert(dv.take(i + 1).last() == dv[i as int]);
            assert(dv[i as int].0 == choices@[i as int].0@);
            assert(dv[i as int].1 == choices@[i as int].1@);
            assert(out@ =~= pre + rendered_line(dv[i as int].0, dv[i as int].1));
        }
        i = i + 1;
    }
    proof {
        assert(dv.take(choices@.len() as int) =~= dv);
    }
    out
}

/// Renders a buffered response body: the body parses to its choices,
/// which render one line each; a malformed body yields `None` and no
/// output.
pub fn render_buffered_body(body: &[u8]) -> (out: Option<Vec<u8>>)
    ensures
        match out {
            Option::Some(o) => buffered_choices_of(body@) is Some && o@ == render_buffered_spec(
                buffered_choices_of(body@)->Some_0,
            ),
            Option::None => buffered_choices_of(body@) is None,
        },
{
    match parse_buffered_choices(body) {
        Option::Some(choices) => {
            proof {
                assert(buffered_choices_of(body@) == Some(choices.deep_view()));
            }
            Option::Some(render_buffered(&choices))
        },
        Option::None => Option::None,
    }
}

/// Streaming-mode rendering model: the answer text is the fragments
/// concatenated in arrival order, nothing added between them.
pub fn concat_fragments(frags: &Vec<Vec<u8>>) -> (out: Vec<u8>)
    ensures
        out@ == frags.deep_view().flatten(),
{
    let ghost dv = frags.deep_view();
    let mut out: Vec<u8> = Vec::new();
    let mut i: usize = 0;
    proof {
        assert(dv.take(0) =~= Seq::<Seq<u8>>::empty());
    }
    while i < frags.len()
        invariant
            i <= frags@.len(),
            dv == frags.deep_view(),
            out@ == dv.take(i as int).flatten(),
        decreases frags@.len() - i,
    {
        append_bytes(&mut out, &frags[i]);
        proof {
            assert(dv.take(i + 1) =~= dv.take(i as int).push(dv[i as int]));
            dv.take(i as int).lemma_flatten_push(dv[i as int]);
            assert(dv[i as int] == frags@[i as int]@);
        }
        i = i + 1;
    }
    proof {
        assert(dv.take(frags@.len() as int) =~= dv);
    }
    out
}

} // verus!
