//! The pyramid command's output: an ascending then descending stack of lines,
//! each repeating a fixed token, framed as raw IRC messages and sent as one
//! batch.

use vstd::prelude::*;

verus! {

/// One pyramid line: `c` copies of the token, separated by single spaces.
pub open spec fn line_tokens(c: int) -> Seq<char>
    decreases c,
{
    if c <= 1 {
        "6yb"@
    } else {
        line_tokens(c - 1) + " 6yb"@
    }
}

/// One raw IRC message carrying `text` to `chan`.
pub open spec fn privmsg_frame(chan: Seq<char>, text: Seq<char>) -> Seq<char> {
    "PRIVMSG "@ + chan + " :"@ + text + "\r\n"@
}

/// The token counts 1, 2, ..., n.
pub open spec fn asc_counts(n: int) -> Seq<int>
    decreases n,
{
    if n <= 0 {
        Seq::empty()
    } else {
        asc_counts(n - 1).push(n)
    }
}

/// The token counts n, n - 1, ..., 1.
pub open spec fn desc_counts(n: int) -> Seq<int>
    decreases n,
{
    if n <= 0 {
        Seq::empty()
    } else {
        seq![n] + desc_counts(n - 1)
    }
}

/// The token count of each pyramid line, top of the climb in the middle.
pub open spec fn pyramid_counts(n: int) -> Seq<int> {
    asc_counts(n) + desc_counts(n - 1)
}

/// The frames for the given token counts, concatenated in order.
pub open spec fn frames_for(chan: Seq<char>, counts: Seq<int>) -> Seq<char>
    decreases counts.len(),
{
    if counts.len() == 0 {
        Seq::empty()
    } else {
        privmsg_frame(chan, line_tokens(counts[0])) + frames_for(chan, counts.drop_first())
    }
}

/// The whole batch a pyramid of height `n` sends to `chan`.
pub open spec fn pyramid_batch(chan: Seq<char>, n: int) -> Seq<char> {
    frames_for(chan, pyramid_counts(n))
}

/// Appending a count appends its frame.
proof fn lemma_frames_push(chan: Seq<char>, counts: Seq<int>, x: int)
    ensures
        frames_for(chan, counts.push(x)) == frames_for(chan, counts) + privmsg_frame(
            chan,
            line_tokens(x),
        ),
    decreases counts.len(),
{
    if counts.len() == 0 {
        assert(counts.push(x)[0] == x);
        assert(counts =~= Seq::<int>::empty());
        assert(counts.push(x).drop_first() =~= counts);
        assert(frames_for(chan, counts.push(x)) =~= frames_for(chan, counts) + privmsg_frame(
            chan,
            line_tokens(x),
        ));
    } else {
        lemma_frames_push(chan, counts.drop_first(), x);
        assert(counts.push(x)[0] == counts[0]);
        assert(counts.push(x).drop_first() =~= counts.drop_first().push(x));
        assert(frames_for(chan, counts.push(x)) =~= frames_for(chan, counts) + privmsg_frame(
            chan,
            line_tokens(x),
        ));
    }
}

/// Frames distribute over concatenation of counts.
proof fn lemma_frames_concat(chan: Seq<char>, a: Seq<int>, b: Seq<int>)
    ensures
        frames_for(chan, a + b) == frames_for(chan, a) + frames_for(chan, b),
    decreases a.len(),
{
    if a.len() == 0 {
        assert(a + b =~= b);
        assert(Seq::<char>::empty() + frames_for(chan, b) =~= frames_for(chan, b));
    } else {
        lemma_frames_concat(chan, a.drop_first(), b);
        assert((a + b)[0] == a[0]);
        assert((a + b).drop_first() =~= a.drop_first() + b);
        assert(frames_for(chan, a + b) =~= frames_for(chan, a) + frames_for(chan, b));
    }
}

/// Append one raw IRC frame to the batch under construction.
fn append_frame(batch: &mut String, channel: &str, text: &str)
    ensures
        final(batch)@ == old(batch)@ + privmsg_frame(channel@, text@),
{
    batch.append("PRIVMSG ");
    batch.append(channel);
    batch.append(" :");
    batch.append(text);
    batch.append("\r\n");
    assert(batch@ =~= old(batch)@ + privmsg_frame(channel@, text@));
}

/// Build the raw batch for a pyramid of height `n` in `channel`: the lines
/// for counts 1 up to `n`, then back down to 1, each framed as one message.
pub fn build_pyramid(channel: &str, n: u8) -> (r: String)
    requires
        1 <= n <= 4,
    ensures
        r@ == pyramid_batch(channel@, n as int),
{
    let nn: usize = n as usize;
    let mut lines: Vec<String> = Vec::new();
    let mut line = String::from_str("6yb");
    assert(line@ == line_tokens(1));
    lines.push(line.clone());
    let mut c: usize = 1;
    while c < nn
        invariant
            1 <= c <= nn <= 4,
            line@ == line_tokens(c as int),
            lines@.len() == c,
            forall|j: int| 0 <= j < c ==> lines@[j]@ == line_tokens(j + 1),
        decreases nn - c,
    {
        line.append(" 6yb");
        c += 1;
        assert(line@ == line_tokens(c as int));
        lines.push(line.clone());
    }
    let mut batch = String::new();
    assert(frames_for(channel@, asc_counts(0)) =~= batch@);
    let mut k: usize = 0;
    while k < nn
        invariant
            k <= nn <= 4,
            lines@.len() == nn,
            forall|j: int| 0 <= j < nn ==> lines@[j]@ == line_tokens(j + 1),
            batch@ == frames_for(channel@, asc_counts(k as int)),
        decreases nn - k,
    {
        proof {
            lemma_frames_push(channel@, asc_counts(k as int), k + 1);
        }
        append_frame(&mut batch, channel, lines[k].as_str());
        k += 1;
    }
    proof {
        lemma_frames_concat(channel@, asc_counts(nn as int), desc_counts(nn - 1));
    }
    let mut d: usize = nn - 1;
    while d > 0
        invariant
            d < nn <= 4,
            lines@.len() == nn,
            forall|j: int| 0 <= j < nn ==> lines@[j]@ == line_tokens(j + 1),
            batch@ + frames_for(channel@, desc_counts(d as int)) == pyramid_batch(
                channel@,
                nn as int,
            ),
        decreases d,
    {
        let ghost before = batch@;
        append_frame(&mut batch, channel, lines[d - 1].as_str());
        proof {
            assert(desc_counts(d as int)[0] == d as int);
            assert(desc_counts(d as int).drop_first() =~= desc_counts(d - 1));
            assert(frames_for(channel@, desc_counts(d as int)) == privmsg_frame(
                channel@,
                line_tokens(d as int),
            ) + frames_for(channel@, desc_counts(d - 1)));
            assert(batch@ + frames_for(channel@, desc_counts(d - 1)) =~= before + frames_for(
                channel@,
                desc_counts(d as int),
            ));
        }
        d -= 1;
    }
    assert(frames_for(channel@, desc_counts(0)) =~= Seq::<char>::empty());
    assert(batch@ =~= batch@ + Seq::<char>::empty());
    batch
}

/// The length of the ascending climb, and what each of its counts is.
proof fn lemma_asc_shape(n: int)
    requires
        n >= 0,
    ensures
        asc_counts(n).len() == n,
        forall|i: int| 0 <= i < n ==> asc_counts(n)[i] == i + 1,
    decreases n,
{
    if n > 0 {
        lemma_asc_shape(n - 1);
    }
}

/// The length of the descending run, and what each of its counts is.
proof fn lemma_desc_shape(n: int)
    requires
        n >= 0,
    ensures
        desc_counts(n).len() == n,
        forall|i: int| 0 <= i < n ==> desc_counts(n)[i] == n - i,
    decreases n,
{
    if n > 0 {
        lemma_desc_shape(n - 1);
        assert forall|i: int| 0 <= i < n implies desc_counts(n)[i] == n - i by {
            if i > 0 {
                assert(desc_counts(n)[i] == desc_counts(n - 1)[i - 1]);
            }
        }
    }
}

/// A pyramid of height `n` has exactly `2n - 1` lines; the line at position
/// `i` repeats the token `i + 1` times on the climb and `2n - 1 - i` times on
/// the descent.
pub proof fn lemma_pyramid_shape(n: int)
    requires
        n >= 1,
    ensures
        pyramid_counts(n).len() == 2 * n - 1,
        forall|i: int| 0 <= i < n ==> pyramid_counts(n)[i] == i + 1,
        forall|i: int| n <= i < 2 * n - 1 ==> pyramid_counts(n)[i] == 2 * n - 1 - i,
{
    lemma_asc_shape(n);
    lemma_desc_shape(n - 1);
    assert forall|i: int| n <= i < 2 * n - 1 implies pyramid_counts(n)[i] == 2 * n - 1 - i by {
        assert(pyramid_counts(n)[i] == desc_counts(n - 1)[i - n]);
    }
}

} // verus!
