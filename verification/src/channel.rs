//! Which audio channel a PipeWire port carries, judged from its name.
use vstd::prelude::*;

use crate::text::{
    chars_of, contains_chars, slice_eq, ends_with_chars, has_infix, has_suffix, is_alphanumeric, to_lowercase,
    unicode_alphanumeric, unicode_lowercase,
};

verus! {

/// The channel of a port.
#[derive(Debug, Clone, Copy, PartialEq, Eq, Structural)]
pub enum Channel {
    Left,
    Right,
    Mono,
}

/// A character that separates tokens of a port name: anything that is not
/// alphanumeric.
pub open spec fn is_separator(c: char) -> bool {
    !unicode_alphanumeric(c)
}

/// The pieces of `s` between separators, in order, empty pieces included
/// (as `str::split` gives them; an empty string yields one empty piece).
pub open spec fn split_tokens(s: Seq<char>) -> Seq<Seq<char>>
    decreases s.len(),
{
    if s.len() == 0 {
        seq![Seq::<char>::empty()]
    } else {
        let prev = split_tokens(s.drop_last());
        if is_separator(s.last()) {
            prev.push(Seq::<char>::empty())
        } else {
            prev.update(prev.len() - 1, prev.last().push(s.last()))
        }
    }
}

/// The channel that a token names on its own, if any.
pub open spec fn token_channel(t: Seq<char>) -> Option<Channel> {
    if t == "fl"@ || t == "left"@ || t == "l"@ || t == "1"@ {
        Some(Channel::Left)
    } else if t == "fr"@ || t == "right"@ || t == "r"@ || t == "2"@ {
        Some(Channel::Right)
    } else {
        None
    }
}

/// The channel named by the first token, in order, that names one.
pub open spec fn first_token_channel(ts: Seq<Seq<char>>) -> Option<Channel>
    decreases ts.len(),
{
    if ts.len() == 0 {
        None
    } else if token_channel(ts[0]) is Some {
        token_channel(ts[0])
    } else {
        first_token_channel(ts.drop_first())
    }
}

/// The channel of a lowercased name that no token settles: known substrings,
/// then known endings; otherwise mono.
pub open spec fn fallback_channel(l: Seq<char>) -> Channel {
    if has_infix(l, "front.left"@) || has_infix(l, "front-left"@) || has_infix(l, "fl"@) {
        Channel::Left
    } else if has_infix(l, "front.right"@) || has_infix(l, "front-right"@) || has_infix(l, "fr"@) {
        Channel::Right
    } else if has_suffix(l, "_l"@) || has_suffix(l, ".l"@) {
        Channel::Left
    } else if has_suffix(l, "_r"@) || has_suffix(l, ".r"@) {
        Channel::Right
    } else {
        Channel::Mono
    }
}

/// The channel of a lowercased port name: the name is split into tokens;
/// the first token that names a channel decides, else the fallback.
pub open spec fn channel_of_lowercase(l: Seq<char>) -> Channel {
    match first_token_channel(split_tokens(l)) {
        Some(c) => c,
        None => fallback_channel(l),
    }
}

/// The channel of a port named `name`, judged from its lowercased name.
pub open spec fn channel_of_name(name: Seq<char>) -> Channel {
    channel_of_lowercase(unicode_lowercase(name))
}

/// Splitting never yields an empty list of tokens.
pub proof fn lemma_split_tokens_nonempty(s: Seq<char>)
    ensures
        split_tokens(s).len() >= 1,
    decreases s.len(),
{
    if s.len() > 0 {
        lemma_split_tokens_nonempty(s.drop_last());
    }
}

/// Reading further into a string never changes the tokens already closed.
proof fn lemma_split_tokens_prefix(s: Seq<char>, i: int, j: int)
    requires
        0 <= i <= j <= s.len(),
    ensures
        split_tokens(s.take(i)).len() <= split_tokens(s.take(j)).len(),
        forall|k: int|
            0 <= k < split_tokens(s.take(i)).len() - 1 ==> #[trigger] split_tokens(s.take(j))[k]
                == split_tokens(s.take(i))[k],
    decreases j - i,
{
    if i < j {
        lemma_split_tokens_prefix(s, i, j - 1);
        let t = s.take(j);
        assert(t.drop_last() =~= s.take(j - 1));
        lemma_split_tokens_nonempty(s.take(j - 1));
        lemma_split_tokens_nonempty(s.take(i));
    }
}

/// When the tokens before position `n` name no channel, the search starts at `n`.
proof fn lemma_first_token_at(ts: Seq<Seq<char>>, n: int)
    requires
        0 <= n < ts.len(),
        forall|k: int| 0 <= k < n ==> token_channel(#[trigger] ts[k]) is None,
    ensures
        first_token_channel(ts) == if token_channel(ts[n]) is Some {
            token_channel(ts[n])
        } else {
            first_token_channel(ts.subrange(n + 1, ts.len() as int))
        },
    decreases n,
{
    if n > 0 {
        let rest = ts.drop_first();
        assert forall|k: int| 0 <= k < n - 1 implies token_channel(#[trigger] rest[k]) is None by {
            assert(rest[k] == ts[k + 1]);
        }
        assert(token_channel(ts[0]) is None);
        lemma_first_token_at(rest, n - 1);
        assert(rest.subrange(n, rest.len() as int) =~= ts.subrange(n + 1, ts.len() as int));
    }
}

/// The channel that a token names on its own, if any.
fn classify_token(t: &[char]) -> (r: Option<Channel>)
    ensures
        r == token_channel(t@),
{
    if slice_eq(t, &chars_of("fl")) || slice_eq(t, &chars_of("left")) || slice_eq(t, &chars_of("l"))
        || slice_eq(t, &chars_of("1")) {
        Some(Channel::Left)
    } else if slice_eq(t, &chars_of("fr")) || slice_eq(t, &chars_of("right")) || slice_eq(
        t,
        &chars_of("r"),
    ) || slice_eq(t, &chars_of("2")) {
        Some(Channel::Right)
    } else {
        None
    }
}

/// Detects the channel of a port from its name.
pub fn detect_channel(port_name: &str) -> (c: Channel)
    ensures
        c == channel_of_name(port_name@),
{
    let lower = to_lowercase(port_name);
    let l = chars_of(lower.as_str());
    lowercase_channel(&l)
}

/// The channel of a port from the characters of its lowercased name.
pub fn lowercase_channel(l: &[char]) -> (c: Channel)
    ensures
        c == channel_of_lowercase(l@),
{
    let ghost lv = l@;
    let n = l.len();
    let mut cur: Vec<char> = Vec::new();
    let ghost mut done: Seq<Seq<char>> = Seq::empty();
    let mut i: usize = 0;
    while i < n
        invariant
            lv == l@,
            n == l@.len(),
            i <= n,
            split_tokens(lv.take(i as int)) == done.push(cur@),
            forall|k: int| 0 <= k < done.len() ==> token_channel(#[trigger] done[k]) is None,
        decreases n - i,
    {
        if !is_alphanumeric(l[i]) {
            let found = classify_token(&cur);
            let t1 = Ghost(lv.take(i + 1));
            proof {
                assert(t1@.drop_last() =~= lv.take(i as int));
                assert(split_tokens(t1@) == done.push(cur@).push(Seq::<char>::empty()));
            }
            if let Some(ch) = found {
                proof {
                    let ts = split_tokens(lv);
                    let m = done.len() as int;
                    lemma_split_tokens_prefix(lv, i + 1, n as int);
                    assert(lv.take(n as int) =~= lv);
                    assert(ts[m] == cur@);
                    assert forall|k: int| 0 <= k < m implies token_channel(#[trigger] ts[k]) is None by {
                        assert(ts[k] == done[k]);
                    }
                    lemma_first_token_at(ts, m);
                }
                return ch;
            }
            proof {
                done = done.push(cur@);
            }
            cur = Vec::new();
        } else {
            proof {
                let t1 = lv.take(i + 1);
                assert(t1.drop_last() =~= lv.take(i as int));
                assert(split_tokens(t1) =~= done.push(cur@.push(l@[i as int])));
            }
            cur.push(l[i]);
        }
        i = i + 1;
    }
    let found = classify_token(&cur);
    proof {
        assert(lv.take(n as int) =~= lv);
        let ts = split_tokens(lv);
        let m = done.len() as int;
        assert forall|k: int| 0 <= k < m implies token_channel(#[trigger] ts[k]) is None by {
            assert(ts[k] == done[k]);
        }
        lemma_first_token_at(ts, m);
        assert(ts.subrange(m + 1, ts.len() as int) =~= Seq::<Seq<char>>::empty());
    }
    if let Some(ch) = found {
        return ch;
    }
    if contains_chars(l, &chars_of("front.left")) || contains_chars(l, &chars_of("front-left"))
        || contains_chars(l, &chars_of("fl")) {
        return Channel::Left;
    }
    if contains_chars(l, &chars_of("front.right")) || contains_chars(l, &chars_of("front-right"))
        || contains_chars(l, &chars_of("fr")) {
        return Channel::Right;
    }
    if ends_with_chars(l, &chars_of("_l")) || ends_with_chars(l, &chars_of(".l")) {
        return Channel::Left;
    }
    if ends_with_chars(l, &chars_of("_r")) || ends_with_chars(l, &chars_of(".r")) {
        return Channel::Right;
    }
    Channel::Mono
}

/// A token that names the left channel on its own.
pub open spec fn is_left_token(t: Seq<char>) -> bool {
    t == "fl"@ || t == "left"@ || t == "l"@ || t == "1"@
}

/// A token that names the right channel on its own.
pub open spec fn is_right_token(t: Seq<char>) -> bool {
    t == "fr"@ || t == "right"@ || t == "r"@ || t == "2"@
}

/// Whichever position it stands at, the first token of the lowercased name
/// that is `fl`, `left`, `l` or `1` (left) or `fr`, `right`, `r` or `2`
/// (right) decides the channel; substrings and endings are not looked at.
pub proof fn law_first_channel_token_decides(l: Seq<char>, k: int)
    requires
        0 <= k < split_tokens(l).len(),
        is_left_token(split_tokens(l)[k]) || is_right_token(split_tokens(l)[k]),
        forall|j: int|
            0 <= j < k ==> !is_left_token(#[trigger] split_tokens(l)[j]) && !is_right_token(
                split_tokens(l)[j],
            ),
    ensures
        channel_of_lowercase(l) == if is_left_token(split_tokens(l)[k]) {
            Channel::Left
        } else {
            Channel::Right
        },
{
    let ts = split_tokens(l);
    assert forall|j: int| 0 <= j < k implies token_channel(#[trigger] ts[j]) is None by {
        assert(!is_left_token(ts[j]) && !is_right_token(ts[j]));
    }
    lemma_first_token_at(ts, k);
}

/// The same for a port name as given: its lowercased form decides.
pub proof fn law_first_channel_token_of_name_decides(name: Seq<char>, k: int)
    requires
        0 <= k < split_tokens(unicode_lowercase(name)).len(),
        is_left_token(split_tokens(unicode_lowercase(name))[k]) || is_right_token(
            split_tokens(unicode_lowercase(name))[k],
        ),
        forall|j: int|
            0 <= j < k ==> !is_left_token(#[trigger] split_tokens(unicode_lowercase(name))[j])
                && !is_right_token(split_tokens(unicode_lowercase(name))[j]),
    ensures
        channel_of_name(name) == if is_left_token(split_tokens(unicode_lowercase(name))[k]) {
            Channel::Left
        } else {
            Channel::Right
        },
{
    law_first_channel_token_decides(unicode_lowercase(name), k);
}

/// Tokens put back together with the separators between them, in order.
pub open spec fn interleave(ts: Seq<Seq<char>>, seps: Seq<char>) -> Seq<char>
    decreases ts.len(),
{
    if ts.len() <= 1 {
        if ts.len() == 1 {
            ts[0]
        } else {
            Seq::empty()
        }
    } else {
        interleave(ts.drop_last(), seps.drop_last()) + seq![seps.last()] + ts.last()
    }
}

/// Splitting cuts a string exactly at its separators: there is one token more
/// than there are separators, no token holds a separator, and the tokens with
/// the separators between them give back the string.
pub proof fn law_split_tokens_cut_at_separators(l: Seq<char>)
    ensures
        split_tokens(l).len() == l.filter(|c: char| is_separator(c)).len() + 1,
        forall|k: int, i: int|
            0 <= k < split_tokens(l).len() && 0 <= i < split_tokens(l)[k].len() ==> !is_separator(
                #[trigger] split_tokens(l)[k][i],
            ),
        interleave(split_tokens(l), l.filter(|c: char| is_separator(c))) == l,
    decreases l.len(),
{
    let sep = |c: char| is_separator(c);
    if l.len() == 0 {
        assert(l.filter(sep) =~= Seq::<char>::empty()) by {
            reveal_with_fuel(Seq::<_>::filter, 1);
        }
        assert(interleave(split_tokens(l), l.filter(sep)) =~= l);
    } else {
        let p = l.drop_last();
        let c = l.last();
        law_split_tokens_cut_at_separators(p);
        lemma_split_tokens_nonempty(p);
        let tp = split_tokens(p);
        let sp = p.filter(sep);
        assert(l.filter(sep) == if sep(c) { sp.push(c) } else { sp }) by {
            reveal_with_fuel(Seq::<_>::filter, 1);
        }
        let t = split_tokens(l);
        if is_separator(c) {
            assert(t == tp.push(Seq::<char>::empty()));
            assert(t.drop_last() =~= tp);
            assert(sp.push(c).drop_last() =~= sp);
            assert forall|k: int, i: int| 0 <= k < t.len() && 0 <= i < t[k].len() implies !is_separator(
                #[trigger] t[k][i],
            ) by {
                assert(k < tp.len());
                assert(t[k] == tp[k]);
            }
            assert(interleave(t, sp.push(c)) == interleave(tp, sp) + seq![c] + Seq::<char>::empty());
            assert(interleave(t, sp.push(c)) =~= l);
        } else {
            let last = tp.len() - 1;
            assert(t == tp.update(last, tp.last().push(c)));
            assert forall|k: int, i: int| 0 <= k < t.len() && 0 <= i < t[k].len() implies !is_separator(
                #[trigger] t[k][i],
            ) by {
                if k < last {
                    assert(t[k] == tp[k]);
                } else {
                    if i < tp.last().len() {
                        assert(t[k][i] == tp[last][i]);
                    }
                }
            }
            lemma_interleave_extend(tp, sp, c);
            assert(interleave(t, sp) =~= l);
        }
    }
}

/// Adding a character to the last token adds it at the end of the rejoined text.
proof fn lemma_interleave_extend(ts: Seq<Seq<char>>, seps: Seq<char>, c: char)
    requires
        ts.len() >= 1,
    ensures
        interleave(ts.update(ts.len() - 1, ts.last().push(c)), seps) == interleave(ts, seps).push(c),
{
    let u = ts.update(ts.len() - 1, ts.last().push(c));
    if ts.len() == 1 {
        assert(interleave(u, seps) =~= interleave(ts, seps).push(c));
    } else {
        assert(u.drop_last() =~= ts.drop_last());
        assert(u.last() == ts.last().push(c));
        assert(interleave(u, seps) =~= interleave(ts, seps).push(c));
    }
}

} // verus!
