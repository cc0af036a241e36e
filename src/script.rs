use crate::bytes::le16;
use crate::lz::{copy_run, decode_from, decoded, lemma_copy_run_len, ref_distance, ref_length};
use vstd::prelude::*;

verus! {

/// One coded unit of a compressed stream: a literal byte, or a
/// back-reference of a distance and a run length.
#[derive(Debug, Clone, Copy, PartialEq, Eq, Structural)]
pub enum Token {
    Literal(u8),
    BackRef(u16, u8),
}

/// `t` can be coded, and it reaches no further back than the `produced`
/// bytes already written.
pub open spec fn token_valid(t: Token, produced: nat) -> bool {
    match t {
        Token::Literal(_) => true,
        Token::BackRef(distance, length) => distance < 4096 && 1 <= length <= 16 && distance
            <= produced,
    }
}

/// The coded bytes of `t`.
pub open spec fn token_bytes(t: Token) -> Seq<u8> {
    match t {
        Token::Literal(b) => seq![b],
        Token::BackRef(distance, length) => seq![
            ((distance / 256) * 16 + (length - 1)) as u8,
            (distance % 256) as u8,
        ],
    }
}

/// The control bit that announces `t`.
pub open spec fn token_flag(t: Token) -> nat {
    match t {
        Token::Literal(_) => 0,
        Token::BackRef(_, _) => 1,
    }
}

/// `out` after `t` has been decoded onto it.
pub open spec fn token_output(out: Seq<u8>, t: Token) -> Seq<u8> {
    match t {
        Token::Literal(b) => out.push(b),
        Token::BackRef(distance, length) => copy_run(out, distance as nat, length as nat),
    }
}

/// `out` after every token of `script` has been decoded onto it, in order.
pub open spec fn script_output(out: Seq<u8>, script: Seq<Token>) -> Seq<u8>
    decreases script.len(),
{
    if script.len() == 0 {
        out
    } else {
        script_output(token_output(out, script[0]), script.drop_first())
    }
}

/// Every token of `script` is valid where it stands, after `out`.
pub open spec fn script_valid(out: Seq<u8>, script: Seq<Token>) -> bool
    decreases script.len(),
{
    script.len() == 0 || (token_valid(script[0], out.len()) && script_valid(
        token_output(out, script[0]),
        script.drop_first(),
    ))
}

/// The control word for the tokens of `group`: bit `i` announces token `i`.
pub open spec fn control_word(group: Seq<Token>) -> nat
    decreases group.len(),
{
    if group.len() == 0 {
        0
    } else {
        token_flag(group[0]) + 2 * control_word(group.drop_first())
    }
}

/// The coded bytes of the tokens of `group`, one after another.
pub open spec fn group_bytes(group: Seq<Token>) -> Seq<u8>
    decreases group.len(),
{
    if group.len() == 0 {
        Seq::empty()
    } else {
        token_bytes(group[0]) + group_bytes(group.drop_first())
    }
}

/// The size of a group of tokens under one control word.
pub open spec fn group_len(script: Seq<Token>) -> int {
    if script.len() < 16 {
        script.len() as int
    } else {
        16
    }
}

/// The compressed stream for `script`: each run of sixteen tokens, and the
/// last, shorter one, is a little-endian control word followed by the
/// tokens' bytes.
pub open spec fn encode(script: Seq<Token>) -> Seq<u8>
    decreases script.len(),
{
    if script.len() == 0 {
        Seq::empty()
    } else {
        let group = script.take(group_len(script));
        let word = control_word(group);
        seq![(word % 256) as u8, (word / 256) as u8] + group_bytes(group) + encode(
            script.skip(group_len(script)),
        )
    }
}

spec fn word_bound(n: nat) -> nat
    decreases n,
{
    if n == 0 {
        1
    } else {
        2 * word_bound((n - 1) as nat)
    }
}

proof fn lemma_control_word_bound(group: Seq<Token>)
    ensures
        control_word(group) < word_bound(group.len()),
    decreases group.len(),
{
    if group.len() > 0 {
        lemma_control_word_bound(group.drop_first());
    }
}

proof fn lemma_word_bound_mono(a: nat, b: nat)
    requires
        a <= b,
    ensures
        word_bound(a) <= word_bound(b),
    decreases b,
{
    if a < b {
        lemma_word_bound_mono(a, (b - 1) as nat);
    }
}

proof fn lemma_short_word(group: Seq<Token>)
    requires
        group.len() <= 16,
    ensures
        control_word(group) < 65536,
{
    lemma_control_word_bound(group);
    lemma_word_bound_mono(group.len(), 16);
    reveal_with_fuel(word_bound, 17);
}

proof fn lemma_output_grows(out: Seq<u8>, script: Seq<Token>)
    ensures
        script.len() > 0 ==> script_output(out, script).len() >= token_output(
            out,
            script[0],
        ).len(),
        script_output(out, script).len() >= out.len(),
    decreases script.len(),
{
    if script.len() > 0 {
        let next = token_output(out, script[0]);
        lemma_output_grows(next, script.drop_first());
        match script[0] {
            Token::Literal(_) => {},
            Token::BackRef(d, l) => lemma_copy_run_len(out, d as nat, l as nat),
        }
    }
}

proof fn lemma_backref_fields(distance: u16, length: u8)
    requires
        distance < 4096,
        1 <= length <= 16,
    ensures
        ref_distance(token_bytes(Token::BackRef(distance, length))[0], token_bytes(
            Token::BackRef(distance, length),
        )[1]) == distance,
        ref_length(token_bytes(Token::BackRef(distance, length))[0]) == length,
{
    let hi = (distance / 256) as int;
    let lo = (length - 1) as int;
    assert(0 <= hi < 16 && 0 <= lo < 16);
    assert((hi * 16 + lo) / 16 == hi && (hi * 16 + lo) % 16 == lo) by (nonlinear_arith)
        requires
            0 <= hi < 16,
            0 <= lo < 16,
    ;
    assert(hi * 256 + distance % 256 == distance);
}

proof fn lemma_decode_tokens(
    input: Seq<u8>,
    cap: nat,
    pos: int,
    ctr: nat,
    group: Seq<Token>,
    rest: Seq<Token>,
    out: Seq<u8>,
)
    requires
        0 <= pos <= input.len(),
        input.subrange(pos, input.len() as int) == group_bytes(group) + encode(rest),
        group.len() <= ctr <= 16,
        rest.len() > 0 ==> ctr == group.len(),
        script_valid(out, group + rest),
        cap == script_output(out, group + rest).len(),
    ensures
        decode_from(input, cap, pos, ctr, control_word(group), out) == Ok::<Seq<u8>, crate::error::Error>(
            script_output(out, group + rest),
        ),
    decreases 2 * (group.len() + rest.len()) + (if group.len() == 0 && rest.len() > 0 {
        1int
    } else {
        0int
    }),
{
    let all = group + rest;
    if group.len() > 0 {
        let t = group[0];
        let tail = group.drop_first();
        assert(all[0] == t);
        assert(all.drop_first() =~= tail + rest);
        let next = token_output(out, t);
        lemma_output_grows(out, all);
        let k = token_bytes(t).len() as int;
        assert(group_bytes(group) == token_bytes(t) + group_bytes(tail));
        let stream = input.subrange(pos, input.len() as int);
        assert(stream =~= token_bytes(t) + (group_bytes(tail) + encode(rest)));
        assert(input.subrange(pos + k, input.len() as int) =~= stream.subrange(k, stream.len() as int));
        assert(input.subrange(pos + k, input.len() as int) =~= group_bytes(tail) + encode(rest));
        assert(input[pos] == stream[0]);
        match t {
            Token::Literal(b) => {
                lemma_decode_tokens(input, cap, pos + 1, (ctr - 1) as nat, tail, rest, next);
            },
            Token::BackRef(d, l) => {
                assert(input[pos + 1] == stream[1]);
                lemma_backref_fields(d, l);
                lemma_copy_run_len(out, d as nat, l as nat);
                lemma_decode_tokens(input, cap, pos + 2, (ctr - 1) as nat, tail, rest, next);
            },
        }
    } else if rest.len() > 0 {
        let n = group_len(rest);
        let g2 = rest.take(n);
        let r2 = rest.skip(n);
        assert(all =~= rest);
        assert(g2 + r2 =~= rest);
        let word = control_word(g2);
        lemma_short_word(g2);
        let stream = input.subrange(pos, input.len() as int);
        assert(group_bytes(group) =~= Seq::<u8>::empty());
        assert(stream =~= seq![(word % 256) as u8, (word / 256) as u8] + (group_bytes(g2) + encode(r2)));
        assert(input[pos] == stream[0] && input[pos + 1] == stream[1]);
        assert(le16(input, pos) == word);
        assert(input.subrange(pos + 2, input.len() as int) =~= stream.subrange(2, stream.len() as int));
        assert(input.subrange(pos + 2, input.len() as int) =~= group_bytes(g2) + encode(r2));
        assert(g2[0] == rest[0]);
        assert(token_bytes(g2[0]).len() > 0);
        assert(group_bytes(g2) == token_bytes(g2[0]) + group_bytes(g2.drop_first()));
        lemma_decode_tokens(input, cap, pos + 2, 16, g2, r2, out);
        assert(decode_from(input, cap, pos, 0, control_word(group), out) == decode_from(input, cap, pos + 2, 16, word, out));
    } else {
        assert(all =~= Seq::<Token>::empty());
        assert(input.subrange(pos, input.len() as int).len() == 0);
    }
}

/// Round trip: encoding a valid script and decoding the stream into as many
/// bytes as the script produces gives back exactly those bytes.
pub proof fn lemma_round_trip(script: Seq<Token>)
    requires
        script_valid(Seq::empty(), script),
    ensures
        decoded(encode(script), script_output(Seq::empty(), script).len()) == Ok::<Seq<u8>, crate::error::Error>(
            script_output(Seq::empty(), script),
        ),
{
    let input = encode(script);
    assert(input.subrange(0, input.len() as int) =~= group_bytes(Seq::empty()) + encode(script));
    assert(Seq::<Token>::empty() + script =~= script);
    lemma_decode_tokens(
        input,
        script_output(Seq::empty(), script).len(),
        0,
        0,
        Seq::empty(),
        script,
        Seq::empty(),
    );
}

} // verus!
