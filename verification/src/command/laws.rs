//! Laws of the decoder: well-formed wire frames decode to exactly the
//! commands they encode, one per frame, in arrival order.
use vstd::prelude::*;

use crate::command::CommandModel;
use crate::command::Keyword;
use crate::command::ParseError;
use crate::command::is_mutable_spec;
use crate::command::keyword_of_spec;
use crate::command::parse_count_spec;
use crate::command::parse_loop_spec;
use crate::command::parse_spec;
use crate::command::split_crlf_spec;
use crate::command::cons_cmd;
use crate::command::state::StateModel;
use crate::command::state::empty_state;
use crate::command::state::st_add;
use crate::command::state::st_command;
use crate::digits::char_digit;
use crate::digits::dec_digits;
use crate::digits::lemma_dec_digits_all_digits;
use crate::digits::lemma_dec_digits_len;
use crate::digits::lemma_digits_roundtrip;
use crate::digits::pow10;
use crate::resp::crlf_chars;

verus! {

/// A text that can stand as one wire token: it contains neither carriage
/// return nor line feed.
pub open spec fn crlf_free(w: Seq<char>) -> bool {
    forall|i: int| 0 <= i < w.len() ==> w[i] != '\r' && w[i] != '\n'
}

/// The wire form of one bulk-string element: `$<length>`, CRLF, the
/// literal, CRLF.
pub open spec fn enc_word(w: Seq<char>) -> Seq<char> {
    seq!['$'] + dec_digits(w.len()) + crlf_chars() + w + crlf_chars()
}

pub open spec fn enc_words(ws: Seq<Seq<char>>) -> Seq<char>
    decreases ws.len(),
{
    if ws.len() == 0 {
        Seq::empty()
    } else {
        enc_word(ws[0]) + enc_words(ws.skip(1))
    }
}

/// The wire form of one well-formed frame: `*<count>`, CRLF, then each
/// word as a bulk-string element.
pub open spec fn enc_frame(ws: Seq<Seq<char>>) -> Seq<char> {
    seq!['*'] + dec_digits(ws.len()) + crlf_chars() + enc_words(ws)
}

/// The wire form of several frames, concatenated back to back
/// (pipelining).
pub open spec fn enc_frames(fs: Seq<Seq<Seq<char>>>) -> Seq<char>
    decreases fs.len(),
{
    if fs.len() == 0 {
        Seq::empty()
    } else {
        enc_frame(fs[0]) + enc_frames(fs.skip(1))
    }
}

/// A frame is well formed when it has at least one word, its count fits
/// the nine decimal digits a header may carry, and no word holds a CR or
/// LF.
pub open spec fn wf_frame(f: Seq<Seq<char>>) -> bool {
    &&& 1 <= f.len() <= 999_999_999
    &&& forall|i: int| 0 <= i < f.len() ==> crlf_free(#[trigger] f[i])
}

/// The command a frame denotes: its first word is the keyword, the rest
/// are the arguments, and the mutability flag follows the keyword.
pub open spec fn frame_command(f: Seq<Seq<char>>) -> CommandModel
    recommends
        f.len() >= 1,
{
    CommandModel {
        keyword: keyword_of_spec(f[0]),
        args: f.skip(1),
        mutable: is_mutable_spec(keyword_of_spec(f[0])),
    }
}

/// The segments a frame's wire form splits into: the header, then for
/// each word its bulk header and its literal.
pub open spec fn word_segs(ws: Seq<Seq<char>>) -> Seq<Seq<char>>
    decreases ws.len(),
{
    if ws.len() == 0 {
        Seq::empty()
    } else {
        seq![seq!['$'] + dec_digits(ws[0].len()), ws[0]] + word_segs(ws.skip(1))
    }
}

pub open spec fn frame_segs(f: Seq<Seq<char>>) -> Seq<Seq<char>> {
    seq![seq!['*'] + dec_digits(f.len())] + word_segs(f)
}

/// Splitting takes one CRLF-free token off the front of the stream as one
/// whole segment.
proof fn lemma_split_token(a: Seq<char>, b: Seq<char>)
    requires
        crlf_free(a),
    ensures
        split_crlf_spec(a + crlf_chars() + b) == seq![a] + split_crlf_spec(b),
    decreases a.len(),
{
    let s = a + crlf_chars() + b;
    if a.len() == 0 {
        assert(s[0] == '\r' && s[1] == '\n');
        assert(s.skip(2) =~= b);
        assert(a =~= Seq::<char>::empty());
        assert(seq![Seq::<char>::empty()] + split_crlf_spec(b) =~~= seq![a] + split_crlf_spec(b));
    } else {
        assert(s[0] == a[0]);
        assert(s[0] != '\r');
        let a1 = a.skip(1);
        assert(crlf_free(a1));
        lemma_split_token(a1, b);
        assert(s.skip(1) =~= a1 + crlf_chars() + b);
        let rest = split_crlf_spec(s.skip(1));
        assert(rest == seq![a1] + split_crlf_spec(b));
        assert(rest[0] == a1);
        assert(split_crlf_spec(s) == seq![seq![s[0]] + a1] + rest.skip(1));
        assert(seq![s[0]] + a1 =~= a);
        assert(rest.skip(1) =~= split_crlf_spec(b));
        assert(seq![seq![s[0]] + a1] + rest.skip(1) =~= seq![a] + split_crlf_spec(b));
    }
}

/// A bulk-length header is CRLF-free.
proof fn lemma_digits_crlf_free(n: nat)
    ensures
        crlf_free(dec_digits(n)),
        crlf_free(seq!['$'] + dec_digits(n)),
        crlf_free(seq!['*'] + dec_digits(n)),
{
    lemma_dec_digits_all_digits(n);
    assert forall|i: int| 0 <= i < dec_digits(n).len() implies dec_digits(n)[i] != '\r'
        && dec_digits(n)[i] != '\n' by {
        assert(char_digit(dec_digits(n)[i]) is Some);
    }
}

/// The wire form of a word list splits into its segments, leaving the
/// rest of the stream to split on its own.
proof fn lemma_split_words(ws: Seq<Seq<char>>, rest: Seq<char>)
    requires
        forall|i: int| 0 <= i < ws.len() ==> crlf_free(#[trigger] ws[i]),
    ensures
        split_crlf_spec(enc_words(ws) + rest) == word_segs(ws) + split_crlf_spec(rest),
    decreases ws.len(),
{
    if ws.len() == 0 {
        assert(enc_words(ws) + rest =~= rest);
        assert(word_segs(ws) + split_crlf_spec(rest) =~= split_crlf_spec(rest));
    } else {
        let w = ws[0];
        let head = seq!['$'] + dec_digits(w.len());
        let tail = enc_words(ws.skip(1)) + rest;
        lemma_digits_crlf_free(w.len());
        assert(enc_words(ws) + rest =~= head + crlf_chars() + (w + crlf_chars() + tail));
        lemma_split_token(head, w + crlf_chars() + tail);
        lemma_split_token(w, tail);
        lemma_split_words(ws.skip(1), rest);
        assert(split_crlf_spec(enc_words(ws) + rest) == seq![head] + (seq![w] + (word_segs(
            ws.skip(1),
        ) + split_crlf_spec(rest))));
        assert(seq![head] + (seq![w] + (word_segs(ws.skip(1)) + split_crlf_spec(rest)))
            =~= word_segs(ws) + split_crlf_spec(rest));
    }
}

/// The wire form of a whole frame splits into its segments.
proof fn lemma_split_frame(f: Seq<Seq<char>>, rest: Seq<char>)
    requires
        forall|i: int| 0 <= i < f.len() ==> crlf_free(#[trigger] f[i]),
    ensures
        split_crlf_spec(enc_frame(f) + rest) == frame_segs(f) + split_crlf_spec(rest),
{
    let head = seq!['*'] + dec_digits(f.len());
    lemma_digits_crlf_free(f.len());
    assert(enc_frame(f) + rest =~= head + crlf_chars() + (enc_words(f) + rest));
    lemma_split_token(head, enc_words(f) + rest);
    lemma_split_words(f, rest);
    assert(seq![head] + (word_segs(f) + split_crlf_spec(rest)) =~= frame_segs(f)
        + split_crlf_spec(rest));
}

/// The working state after feeding a list of words.
pub open spec fn st_add_all(st: StateModel, ws: Seq<Seq<char>>) -> StateModel
    decreases ws.len(),
{
    if ws.len() == 0 {
        st
    } else {
        st_add_all(st_add(st, ws[0]), ws.skip(1))
    }
}

proof fn lemma_st_add_all_some(st: StateModel, ws: Seq<Seq<char>>)
    requires
        st.kw is Some,
    ensures
        st_add_all(st, ws) == (StateModel { kw: st.kw, args: st.args + ws }),
    decreases ws.len(),
{
    if ws.len() == 0 {
        assert(st.args + ws =~= st.args);
    } else {
        lemma_st_add_all_some(st_add(st, ws[0]), ws.skip(1));
        assert(st.args.push(ws[0]) + ws.skip(1) =~= st.args + ws);
    }
}

/// Feeding a frame's words into a fresh state denotes the frame's
/// command.
proof fn lemma_st_add_all_frame(ws: Seq<Seq<char>>)
    requires
        ws.len() >= 1,
    ensures
        st_command(st_add_all(empty_state(), ws)) == frame_command(ws),
{
    let st1 = st_add(empty_state(), ws[0]);
    lemma_st_add_all_some(st1, ws.skip(1));
    assert(Seq::<Seq<char>>::empty() + ws.skip(1) =~= ws.skip(1));
}

/// Consuming a frame's bulk elements under a budget equal to the number
/// of words feeds exactly those words and emits the frame's command.
proof fn lemma_parse_words(ws: Seq<Seq<char>>, segrest: Seq<Seq<char>>, st: StateModel)
    requires
        ws.len() >= 1,
    ensures
        parse_loop_spec(word_segs(ws) + segrest, ws.len(), st) == cons_cmd(
            st_command(st_add_all(st, ws)),
            parse_loop_spec(segrest, 0, empty_state()),
        ),
    decreases ws.len(),
{
    let segs = word_segs(ws) + segrest;
    let head = seq!['$'] + dec_digits(ws[0].len());
    assert(segs[0] == head);
    assert(head[0] == '$');
    assert(segs[1] == ws[0]);
    assert(segs.len() >= 2);
    assert(segs.skip(2) =~= word_segs(ws.skip(1)) + segrest);
    if ws.len() == 1 {
        assert(word_segs(ws.skip(1)) =~= Seq::<Seq<char>>::empty());
        assert(segs.skip(2) =~= segrest);
        assert(st_add_all(st, ws) == st_add_all(st_add(st, ws[0]), ws.skip(1)));
    } else {
        lemma_parse_words(ws.skip(1), segrest, st_add(st, ws[0]));
    }
}

/// A well-formed frame's segments decode to its command, and decoding
/// continues behind them.
proof fn lemma_parse_frame(f: Seq<Seq<char>>, segrest: Seq<Seq<char>>)
    requires
        wf_frame(f),
    ensures
        parse_loop_spec(frame_segs(f) + segrest, 0, empty_state()) == cons_cmd(
            frame_command(f),
            parse_loop_spec(segrest, 0, empty_state()),
        ),
{
    let segs = frame_segs(f) + segrest;
    let head = seq!['*'] + dec_digits(f.len());
    assert(segs[0] == head);
    assert(head[0] == '*');
    assert(head.skip(1) =~= dec_digits(f.len()));
    lemma_dec_digits_all_digits(f.len());
    lemma_digits_roundtrip(f.len());
    assert(pow10(9) == 1_000_000_000) by {
        reveal_with_fuel(pow10, 10);
    }
    lemma_dec_digits_len(f.len(), 9);
    assert(parse_count_spec(head.skip(1)) == Some(f.len()));
    assert(segs.skip(1) =~= word_segs(f) + segrest);
    lemma_parse_words(f, segrest, empty_state());
    lemma_st_add_all_frame(f);
}

/// Decoding distributes over pipelined well-formed frames: the wire form
/// of K frames decodes to exactly K commands, in arrival order, each the
/// command its frame denotes.
pub proof fn lemma_decode_frames(fs: Seq<Seq<Seq<char>>>)
    requires
        forall|i: int| 0 <= i < fs.len() ==> wf_frame(#[trigger] fs[i]),
    ensures
        parse_spec(enc_frames(fs)) == Ok::<Seq<CommandModel>, ParseError>(
            fs.map_values(|f: Seq<Seq<char>>| frame_command(f)),
        ),
        parse_spec(enc_frames(fs))->Ok_0.len() == fs.len(),
        forall|i: int| 0 <= i < fs.len() ==> parse_spec(enc_frames(fs))->Ok_0[i]
            == frame_command(#[trigger] fs[i]),
    decreases fs.len(),
{
    let cmds = fs.map_values(|f: Seq<Seq<char>>| frame_command(f));
    if fs.len() == 0 {
        assert(enc_frames(fs) == Seq::<char>::empty());
        assert(split_crlf_spec(Seq::<char>::empty()) == seq![Seq::<char>::empty()]);
        let segs1 = seq![Seq::<char>::empty()];
        assert(segs1.skip(1) =~= Seq::<Seq<char>>::empty());
        assert(parse_loop_spec(segs1, 0, empty_state()) == parse_loop_spec(
            Seq::<Seq<char>>::empty(),
            0,
            empty_state(),
        ));
        assert(parse_loop_spec(Seq::<Seq<char>>::empty(), 0, empty_state())
            == Ok::<Seq<CommandModel>, ParseError>(Seq::empty()));
        assert(cmds =~= Seq::<CommandModel>::empty());
    } else {
        lemma_split_frame(fs[0], enc_frames(fs.skip(1)));
        assert(enc_frames(fs) =~= enc_frame(fs[0]) + enc_frames(fs.skip(1)));
        lemma_parse_frame(fs[0], split_crlf_spec(enc_frames(fs.skip(1))));
        lemma_decode_frames(fs.skip(1));
        let tailcmds = fs.skip(1).map_values(|f: Seq<Seq<char>>| frame_command(f));
        assert(parse_spec(enc_frames(fs)) == Ok::<Seq<CommandModel>, ParseError>(
            seq![frame_command(fs[0])] + tailcmds,
        ));
        assert(seq![frame_command(fs[0])] + tailcmds =~= cmds);
    }
}

/// An inline frame — a single unprefixed token on a line of its own —
/// decodes to a one-token frame: a command with that keyword and no
/// arguments.
pub proof fn lemma_decode_inline_frame(w: Seq<char>)
    requires
        crlf_free(w),
        w.len() >= 1,
        w[0] != '*',
        w[0] != '$',
    ensures
        parse_spec(w + crlf_chars()) == Ok::<Seq<CommandModel>, ParseError>(
            seq![
                CommandModel {
                    keyword: keyword_of_spec(w),
                    args: Seq::empty(),
                    mutable: is_mutable_spec(keyword_of_spec(w)),
                },
            ],
        ),
{
    lemma_split_token(w, Seq::empty());
    assert(w + crlf_chars() + Seq::<char>::empty() =~= w + crlf_chars());
    assert(split_crlf_spec(Seq::<char>::empty()) == seq![Seq::<char>::empty()]);
    let segs = seq![w] + seq![Seq::<char>::empty()];
    assert(split_crlf_spec(w + crlf_chars()) =~~= segs);
    assert(segs[0] == w);
    assert(segs.skip(1) =~= seq![Seq::<char>::empty()]);
    assert(parse_loop_spec(seq![Seq::<char>::empty()], 0, empty_state()) == parse_loop_spec(
        seq![Seq::<char>::empty()].skip(1),
        0,
        empty_state(),
    ));
    assert(seq![Seq::<char>::empty()].skip(1) =~= Seq::<Seq<char>>::empty());
    assert(parse_loop_spec(Seq::<Seq<char>>::empty(), 0, empty_state())
        == Ok::<Seq<CommandModel>, ParseError>(Seq::empty()));
    assert(seq![st_command(st_add(empty_state(), w))] + Seq::<CommandModel>::empty()
        =~= seq![st_command(st_add(empty_state(), w))]);
}

/// Any valid single-frame input carrying a zero-argument `ping` decodes
/// to exactly one command: `ping` with an empty argument sequence, not
/// mutable.
pub proof fn lemma_decode_single_ping(w: Seq<char>)
    requires
        crlf_free(w),
        keyword_of_spec(w) == Keyword::Ping,
    ensures
        parse_spec(enc_frame(seq![w])) == Ok::<Seq<CommandModel>, ParseError>(
            seq![
                CommandModel {
                    keyword: Keyword::Ping,
                    args: Seq::empty(),
                    mutable: false,
                },
            ],
        ),
{
    let fs: Seq<Seq<Seq<char>>> = seq![seq![w]];
    assert(wf_frame(fs[0]));
    lemma_decode_frames(fs);
    assert(fs.skip(1) =~= Seq::<Seq<Seq<char>>>::empty());
    assert(enc_frames(fs.skip(1)) == Seq::<char>::empty());
    assert(enc_frames(fs) =~= enc_frame(seq![w]));
    assert(seq![w].skip(1) =~= Seq::<Seq<char>>::empty());
    assert(fs.map_values(|f: Seq<Seq<char>>| frame_command(f)) =~= seq![frame_command(seq![w])]);
}

} // verus!
