//! The command model and the frame decoder: turning a raw CRLF-delimited
//! byte stream into an ordered sequence of typed commands.
pub mod laws;
pub mod state;

use vstd::prelude::*;

use crate::command::state::State;
use crate::command::state::StateModel;
use crate::command::state::empty_state;
use crate::command::state::st_add;
use crate::command::state::st_command;

verus! {

/// The closed set of recognized command names, plus a catch-all for
/// anything else. Matching against the wire text is ASCII
/// case-insensitive.
#[derive(Copy, Clone, Debug, PartialEq, Eq, Structural)]
pub enum Keyword {
    Ping,
    Echo,
    Get,
    SetCmd,
    Unknown,
}

/// Whether a keyword's command mutates the store. This is the single fact
/// the concurrency discipline relies on: a mutating command requires
/// exclusive access to the store, a read-only command shared access.
pub open spec fn is_mutable_spec(k: Keyword) -> bool {
    match k {
        Keyword::Ping => false,
        Keyword::Echo => false,
        Keyword::Get => false,
        Keyword::SetCmd => true,
        Keyword::Unknown => false,
    }
}

impl Keyword {
    /// Whether this keyword's command mutates the store.
    pub fn is_mutable(&self) -> (r: bool)
        ensures
            r == is_mutable_spec(*self),
    {
        match self {
            Keyword::Ping => false,
            Keyword::Echo => false,
            Keyword::Get => false,
            Keyword::SetCmd => true,
            Keyword::Unknown => false,
        }
    }
}

/// Maps lower-case ASCII letters to upper case and leaves every other
/// character unchanged.
pub open spec fn ascii_upper_char(c: char) -> char {
    if 'a' <= c && c <= 'z' {
        ((c as u8) - 0x20) as char
    } else {
        c
    }
}

/// A word with its ASCII letters folded to upper case.
pub open spec fn ascii_upper(s: Seq<char>) -> Seq<char> {
    s.map_values(|c: char| ascii_upper_char(c))
}

/// The keyword a wire word denotes, by ASCII case-insensitive match.
pub open spec fn keyword_of_spec(w: Seq<char>) -> Keyword {
    if ascii_upper(w) == "PING"@ {
        Keyword::Ping
    } else if ascii_upper(w) == "ECHO"@ {
        Keyword::Echo
    } else if ascii_upper(w) == "GET"@ {
        Keyword::Get
    } else if ascii_upper(w) == "SET"@ {
        Keyword::SetCmd
    } else {
        Keyword::Unknown
    }
}

/// One decoded request frame: a keyword, its ordered arguments, and the
/// mutability flag computed from the keyword at construction time.
#[derive(Debug)]
pub struct Command {
    pub keyword: Keyword,
    pub args: Vec<String>,
    pub mutable: bool,
}

/// The mathematical value of a [`Command`].
pub ghost struct CommandModel {
    pub keyword: Keyword,
    pub args: Seq<Seq<char>>,
    pub mutable: bool,
}

impl View for Command {
    type V = CommandModel;

    open spec fn view(&self) -> CommandModel {
        CommandModel {
            keyword: self.keyword,
            args: self.args.deep_view(),
            mutable: self.mutable,
        }
    }
}

impl DeepView for Command {
    type V = CommandModel;

    open spec fn deep_view(&self) -> CommandModel {
        self.view()
    }
}

impl CommandModel {
    /// A command is well formed when its mutability flag agrees with its
    /// keyword.
    pub open spec fn wf(self) -> bool {
        self.mutable == is_mutable_spec(self.keyword)
    }
}

/// Why a buffer failed to decode. Decoding is fatal per batch: the first
/// malformed token fails the whole buffer, and the caller answers the
/// connection with an error reply rather than dropping it.
#[derive(Copy, Clone, Debug, PartialEq, Eq, Structural)]
pub enum ParseError {
    /// A frame completed without any word (no keyword was parsed).
    NoKeyword,
    /// An array header's element count is not 1 to 9 decimal digits.
    BadArrayHeader,
    /// A bulk-string header at the end of the buffer, with no literal line
    /// following it.
    MissingBulkLiteral,
    /// An array header inside a frame: nesting is not supported.
    NestedArray,
    /// The buffer ended in the middle of a frame.
    TruncatedFrame,
}

/// Maps a lower-case ASCII letter to upper case, leaving every other
/// character unchanged.
fn ascii_upper_exec(c: char) -> (r: char)
    ensures
        r == ascii_upper_char(c),
{
    if 'a' <= c && c <= 'z' {
        ((c as u8) - 0x20) as char
    } else {
        c
    }
}

/// Whether `w`, with its ASCII letters folded to upper case, equals `t`.
fn matches_upper(w: &str, t: &str) -> (r: bool)
    ensures
        r == (ascii_upper(w@) == t@),
{
    let wn = w.unicode_len();
    let tn = t.unicode_len();
    if wn != tn {
        return false;
    }
    let mut i: usize = 0;
    while i < wn
        invariant
            i <= wn,
            wn == w@.len(),
            wn == t@.len(),
            forall|j: int| 0 <= j < i ==> ascii_upper_char(w@[j]) == t@[j],
        decreases wn - i,
    {
        if ascii_upper_exec(w.get_char(i)) != t.get_char(i) {
            assert(ascii_upper(w@)[i as int] != t@[i as int]);
            return false;
        }
        i = i + 1;
    }
    proof {
        assert(ascii_upper(w@) =~= t@);
    }
    true
}

/// Splitting a character stream at every CRLF, as `str::split` with a
/// two-character separator does: the result always has one more segment
/// than there are separators, so a stream ending in CRLF ends in an empty
/// segment.
pub open spec fn split_crlf_spec(s: Seq<char>) -> Seq<Seq<char>>
    decreases s.len(),
{
    if s.len() >= 2 && s[0] == '\r' && s[1] == '\n' {
        seq![Seq::<char>::empty()] + split_crlf_spec(s.skip(2))
    } else if s.len() == 0 {
        seq![Seq::<char>::empty()]
    } else {
        let rest = split_crlf_spec(s.skip(1));
        seq![seq![s[0]] + rest[0]] + rest.skip(1)
    }
}

/// Splitting yields at least one segment.
pub proof fn lemma_split_nonempty(s: Seq<char>)
    ensures
        split_crlf_spec(s).len() >= 1,
    decreases s.len(),
{
    if s.len() >= 2 && s[0] == '\r' && s[1] == '\n' {
        lemma_split_nonempty(s.skip(2));
    } else if s.len() > 0 {
        lemma_split_nonempty(s.skip(1));
    }
}

/// `segs` with `c` prefixed onto its first segment.
pub open spec fn prepend_first(c: Seq<char>, segs: Seq<Seq<char>>) -> Seq<Seq<char>>
    recommends
        segs.len() >= 1,
{
    seq![c + segs[0]] + segs.skip(1)
}

/// Splits `s` at every CRLF.
pub fn split_crlf(s: &str) -> (r: Vec<String>)
    ensures
        r.deep_view() == split_crlf_spec(s@),
{
    let n = s.unicode_len();
    let mut segs: Vec<String> = Vec::new();
    let mut from: usize = 0;
    let mut i: usize = 0;
    proof {
        lemma_split_nonempty(s@);
        assert(s@.skip(0) =~= s@);
        assert(s@.subrange(0, 0) =~= Seq::<char>::empty());
        assert(Seq::<char>::empty() + split_crlf_spec(s@)[0] =~= split_crlf_spec(s@)[0]);
        assert(segs.deep_view() + prepend_first(
            s@.subrange(0, 0),
            split_crlf_spec(s@),
        ) =~~= split_crlf_spec(s@));
    }
    while i < n
        invariant
            from <= i <= n,
            n == s@.len(),
            split_crlf_spec(s@) == segs.deep_view() + prepend_first(
                s@.subrange(from as int, i as int),
                split_crlf_spec(s@.skip(i as int)),
            ),
        decreases n - i,
    {
        let ghost done = segs.deep_view();
        let ghost cur = s@.subrange(from as int, i as int);
        let ghost rem = s@.skip(i as int);
        proof {
            assert(rem.len() == n - i);
            assert(rem[0] == s@[i as int]);
            if i + 1 < n {
                assert(rem[1] == s@[i + 1]);
            }
        }
        if s.get_char(i) == '\r' && i + 1 < n && s.get_char(i + 1) == '\n' {
            let seg = String::from_str(s.substring_char(from, i));
            segs.push(seg);
            proof {
                assert(rem.skip(2) =~= s@.skip(i + 2));
                lemma_split_nonempty(s@.skip(i + 2));
                assert(split_crlf_spec(rem) == seq![Seq::<char>::empty()] + split_crlf_spec(
                    s@.skip(i + 2),
                ));
                assert(segs.deep_view() =~= done.push(cur));
                assert(s@.subrange(i + 2, i + 2) =~= Seq::<char>::empty());
                assert(done + prepend_first(cur, split_crlf_spec(rem)) =~~= segs.deep_view()
                    + prepend_first(
                    s@.subrange(i + 2, i + 2),
                    split_crlf_spec(s@.skip(i + 2)),
                ));
            }
            i = i + 2;
            from = i;
        } else {
            proof {
                assert(rem.skip(1) =~= s@.skip(i + 1));
                let rest = split_crlf_spec(s@.skip(i + 1));
                assert(split_crlf_spec(rem) == seq![seq![rem[0]] + rest[0]] + rest.skip(1));
                assert(s@.subrange(from as int, i + 1) =~= cur + seq![s@[i as int]]);
                assert(prepend_first(cur, split_crlf_spec(rem)) =~~= prepend_first(
                    s@.subrange(from as int, i + 1),
                    rest,
                ));
            }
            i = i + 1;
        }
    }
    let last = String::from_str(s.substring_char(from, n));
    segs.push(last);
    proof {
        assert(s@.skip(n as int) =~= Seq::<char>::empty());
        assert(split_crlf_spec(s@.skip(n as int)) == seq![Seq::<char>::empty()]);
        assert(prepend_first(s@.subrange(from as int, n as int), seq![Seq::<char>::empty()])
            =~~= seq![s@.subrange(from as int, n as int)]);
        assert(segs.deep_view() =~~= split_crlf_spec(s@));
    }
    segs
}

/// The numeric value of a decimal digit character.
fn char_digit_exec(c: char) -> (r: Option<u8>)
    ensures
        match r {
            Some(d) => crate::digits::char_digit(c) == Some(d as nat),
            None => crate::digits::char_digit(c) is None,
        },
{
    if c == '0' {
        Some(0)
    } else if c == '1' {
        Some(1)
    } else if c == '2' {
        Some(2)
    } else if c == '3' {
        Some(3)
    } else if c == '4' {
        Some(4)
    } else if c == '5' {
        Some(5)
    } else if c == '6' {
        Some(6)
    } else if c == '7' {
        Some(7)
    } else if c == '8' {
        Some(8)
    } else if c == '9' {
        Some(9)
    } else {
        None
    }
}

/// The element count an array header declares: the text after the marker,
/// read as 1 to 9 decimal digits. Longer, empty or non-numeric counts are
/// malformed.
pub open spec fn parse_count_spec(s: Seq<char>) -> Option<nat> {
    if 1 <= s.len() <= 9 && crate::digits::all_digits(s) {
        Some(crate::digits::digits_val(s))
    } else {
        None
    }
}

/// Reads the element count of an array header segment (a `*` followed by
/// the count's digits).
fn parse_count_after_star(seg: &str) -> (r: Option<usize>)
    requires
        seg@.len() >= 1,
    ensures
        match r {
            Some(v) => parse_count_spec(seg@.skip(1)) == Some(v as nat) && v <= 999_999_999,
            None => parse_count_spec(seg@.skip(1)) is None,
        },
{
    let n = seg.unicode_len();
    if n < 2 || n > 10 {
        return None;
    }
    let mut acc: usize = 0;
    let mut i: usize = 1;
    while i < n
        invariant
            1 <= i <= n <= 10,
            n == seg@.len(),
            crate::digits::all_digits(seg@.subrange(1, i as int)),
            acc == crate::digits::digits_val(seg@.subrange(1, i as int)),
        decreases n - i,
    {
        let ghost pre = seg@.subrange(1, i as int);
        match char_digit_exec(seg.get_char(i)) {
            Some(d) => {
                proof {
                    crate::digits::lemma_digits_val_bound(pre);
                    crate::digits::lemma_pow10_mono(pre.len() as nat, 8);
                    reveal_with_fuel(crate::digits::pow10, 9);
                    assert(acc < 100_000_000);
                }
                acc = acc * 10 + (d as usize);
                proof {
                    let grown = seg@.subrange(1, i + 1);
                    assert(grown.drop_last() =~= pre);
                    assert(grown.last() == seg@[i as int]);
                    assert forall|j: int| 0 <= j < grown.len() implies crate::digits::char_digit(
                        grown[j],
                    ) is Some by {
                        if j < i - 1 {
                            assert(grown[j] == pre[j]);
                            assert(crate::digits::char_digit(pre[j]) is Some);
                        } else {
                            assert(grown[j] == seg@[i as int]);
                        }
                    }
                }
                i = i + 1;
            },
            None => {
                proof {
                    assert(seg@.skip(1)[i - 1] == seg@[i as int]);
                    assert(!crate::digits::all_digits(seg@.skip(1)));
                }
                return None;
            },
        }
    }
    proof {
        assert(seg@.subrange(1, n as int) =~= seg@.skip(1));
        crate::digits::lemma_digits_val_bound(seg@.skip(1));
        crate::digits::lemma_pow10_mono(seg@.skip(1).len() as nat, 9);
        reveal_with_fuel(crate::digits::pow10, 10);
    }
    Some(acc)
}

/// Prefixes one decoded command onto the result of decoding the rest of
/// the buffer; a decode error stands.
pub open spec fn cons_cmd(
    c: CommandModel,
    rest: Result<Seq<CommandModel>, ParseError>,
) -> Result<Seq<CommandModel>, ParseError> {
    match rest {
        Ok(cs) => Ok(seq![c] + cs),
        Err(e) => Err(e),
    }
}

/// The decoder's state machine over the CRLF-split segments of a buffer.
///
/// `budget` is the element count still owed to the current frame; zero
/// means the next segment starts a fresh frame. An empty segment (such as
/// the one a trailing CRLF leaves behind) is never a token: it is skipped
/// wherever it stands, so an empty argument travels as a zero-length bulk
/// literal, not as a blank line. At a frame start, a `*` segment declares
/// an array of as many elements as its count says (a count of zero emits
/// nothing), and any other segment is a one-token frame of its own: a `$`
/// bulk header takes the following segment as its literal, unvalidated
/// against the declared length, and anything else is an inline literal.
/// Inside a frame, a `*` segment would nest arrays and is malformed; each
/// word fed to the state is an element, and when the budget is spent the
/// frame's command is emitted and the state reset.
pub open spec fn parse_loop_spec(
    segs: Seq<Seq<char>>,
    budget: nat,
    st: StateModel,
) -> Result<Seq<CommandModel>, ParseError>
    decreases segs.len(),
{
    if segs.len() == 0 {
        if budget == 0 {
            Ok(Seq::empty())
        } else {
            Err(ParseError::TruncatedFrame)
        }
    } else {
        let s0 = segs[0];
        if s0.len() == 0 {
            parse_loop_spec(segs.skip(1), budget, st)
        } else if budget == 0 {
            if s0[0] == '*' {
                match parse_count_spec(s0.skip(1)) {
                    Some(n) => parse_loop_spec(segs.skip(1), n, empty_state()),
                    None => Err(ParseError::BadArrayHeader),
                }
            } else if s0[0] == '$' {
                if segs.len() >= 2 {
                    cons_cmd(
                        st_command(st_add(empty_state(), segs[1])),
                        parse_loop_spec(segs.skip(2), 0, empty_state()),
                    )
                } else {
                    Err(ParseError::MissingBulkLiteral)
                }
            } else {
                cons_cmd(
                    st_command(st_add(empty_state(), s0)),
                    parse_loop_spec(segs.skip(1), 0, empty_state()),
                )
            }
        } else {
            if s0.len() >= 1 && s0[0] == '*' {
                Err(ParseError::NestedArray)
            } else if s0.len() >= 1 && s0[0] == '$' {
                if segs.len() >= 2 {
                    if budget == 1 {
                        cons_cmd(
                            st_command(st_add(st, segs[1])),
                            parse_loop_spec(segs.skip(2), 0, empty_state()),
                        )
                    } else {
                        parse_loop_spec(segs.skip(2), (budget - 1) as nat, st_add(st, segs[1]))
                    }
                } else {
                    Err(ParseError::MissingBulkLiteral)
                }
            } else {
                if budget == 1 {
                    cons_cmd(
                        st_command(st_add(st, s0)),
                        parse_loop_spec(segs.skip(1), 0, empty_state()),
                    )
                } else {
                    parse_loop_spec(segs.skip(1), (budget - 1) as nat, st_add(st, s0))
                }
            }
        }
    }
}

/// What decoding a whole buffer yields: the commands of its frames, in
/// arrival order, or the first decode error.
pub open spec fn parse_spec(s: Seq<char>) -> Result<Seq<CommandModel>, ParseError> {
    parse_loop_spec(split_crlf_spec(s), 0, empty_state())
}

/// Commands already emitted, followed by whatever the rest of the buffer
/// decodes to.
pub open spec fn combine(
    done: Seq<CommandModel>,
    rest: Result<Seq<CommandModel>, ParseError>,
) -> Result<Seq<CommandModel>, ParseError> {
    match rest {
        Ok(cs) => Ok(done + cs),
        Err(e) => Err(e),
    }
}

proof fn lemma_combine_cons(
    done: Seq<CommandModel>,
    c: CommandModel,
    rest: Result<Seq<CommandModel>, ParseError>,
)
    ensures
        combine(done, cons_cmd(c, rest)) == combine(done.push(c), rest),
{
    match rest {
        Ok(cs) => {
            assert(done + (seq![c] + cs) =~= done.push(c) + cs);
        },
        Err(_) => {},
    }
}

/// Decodes a buffer of CRLF-delimited tokens into the commands of its
/// frames, in arrival order. Decoding is fatal per batch: the first
/// malformed token fails the whole buffer.
pub fn parse_message(message: String) -> (r: Result<Vec<Command>, ParseError>)
    ensures
        match r {
            Ok(cmds) => parse_spec(message@) == Ok::<Seq<CommandModel>, ParseError>(
                cmds.deep_view(),
            ),
            Err(e) => parse_spec(message@) == Err::<Seq<CommandModel>, ParseError>(e),
        },
{
    let segs = split_crlf(message.as_str());
    let ghost gsegs: Seq<Seq<char>> = segs.deep_view();
    let mut commands: Vec<Command> = Vec::new();
    let mut st = State::new();
    let mut budget: usize = 0;
    let mut i: usize = 0;
    proof {
        assert(gsegs.skip(0) =~= gsegs);
        assert(commands.deep_view() + Seq::<CommandModel>::empty() =~= Seq::<CommandModel>::empty());
    }
    while i < segs.len()
        invariant
            i <= segs.len(),
            segs.deep_view() == gsegs,
            gsegs == split_crlf_spec(message@),
            budget == 0 ==> st@ == empty_state(),
            parse_spec(message@) == combine(
                commands.deep_view(),
                parse_loop_spec(gsegs.skip(i as int), budget as nat, st@),
            ),
        decreases segs.len() - i,
    {
        let ghost done = commands.deep_view();
        let ghost rem = gsegs.skip(i as int);
        let ghost st0 = st@;
        let ghost b0 = budget as nat;
        proof {
            assert(rem.len() == gsegs.len() - i);
            assert(rem[0] == gsegs[i as int]);
            assert(gsegs[i as int] == segs[i as int]@);
            assert(rem.skip(1) =~= gsegs.skip(i + 1));
            if i + 1 < segs.len() {
                assert(rem[1] == gsegs[i + 1]);
                assert(gsegs[i + 1] == segs[i + 1]@);
                assert(rem.skip(2) =~= gsegs.skip(i + 2));
            }
        }
        let seg: &String = &segs[i];
        if seg.as_str().is_empty() {
            i = i + 1;
        } else if budget == 0 && seg.as_str().get_char(0) == '*' {
            match parse_count_after_star(seg.as_str()) {
                Some(v) => {
                    budget = v;
                    i = i + 1;
                },
                None => {
                    return Err(ParseError::BadArrayHeader);
                },
            }
        } else {
            // A word-bearing token: a frame started by a bare token owes
            // exactly one element.
            if budget == 0 {
                budget = 1;
            }
            let is_bulk = !seg.as_str().is_empty() && seg.as_str().get_char(0) == '$';
            let is_arr = !seg.as_str().is_empty() && seg.as_str().get_char(0) == '*';
            if is_arr {
                return Err(ParseError::NestedArray);
            }
            let word: &String;
            let consumed: usize;
            if is_bulk {
                if i + 1 >= segs.len() {
                    return Err(ParseError::MissingBulkLiteral);
                }
                word = &segs[i + 1];
                consumed = 2;
            } else {
                word = seg;
                consumed = 1;
            }
            st.add_word(word.as_str());
            if budget == 1 {
                let c = match st.as_command() {
                    Ok(c) => c,
                    Err(e) => {
                        return Err(e);
                    },
                };
                proof {
                    lemma_combine_cons(
                        done,
                        st_command(st_add(st0, word@)),
                        parse_loop_spec(gsegs.skip(i + consumed), 0, empty_state()),
                    );
                }
                commands.push(c);
                proof {
                    assert(commands.deep_view() =~= done.push(c@));
                }
                st = State::new();
                budget = 0;
            } else {
                budget = budget - 1;
            }
            i = i + consumed;
        }
    }
    proof {
        assert(gsegs.skip(gsegs.len() as int) =~= Seq::<Seq<char>>::empty());
    }
    if budget > 0 {
        return Err(ParseError::TruncatedFrame);
    }
    proof {
        assert(commands.deep_view() + Seq::<CommandModel>::empty() =~= commands.deep_view());
    }
    Ok(commands)
}

/// The keyword a wire word denotes, by ASCII case-insensitive match.
pub fn keyword_from_word(w: &str) -> (k: Keyword)
    ensures
        k == keyword_of_spec(w@),
{
    if matches_upper(w, "PING") {
        Keyword::Ping
    } else if matches_upper(w, "ECHO") {
        Keyword::Echo
    } else if matches_upper(w, "GET") {
        Keyword::Get
    } else if matches_upper(w, "SET") {
        Keyword::SetCmd
    } else {
        Keyword::Unknown
    }
}

} // verus!
