//! The reply encoder: typed reply values and their exact wire encoding.
use vstd::prelude::*;

use crate::digits::dec_digits;
use crate::digits::u64_digits;
use vstd::utf8::encode_utf8;

verus! {

/// A typed reply value, produced by the dispatcher and consumed only by
/// the encoder. `Nil` is a distinct value, not an empty bulk string.
#[derive(Debug)]
pub enum Resp {
    SimpleString(String),
    BulkString(String),
    Error(String),
    Integer(i64),
    Nil,
}

/// The mathematical value of a [`Resp`].
pub ghost enum RespModel {
    SimpleString(Seq<char>),
    BulkString(Seq<char>),
    Error(Seq<char>),
    Integer(int),
    Nil,
}

impl View for Resp {
    type V = RespModel;

    open spec fn view(&self) -> RespModel {
        match self {
            Resp::SimpleString(s) => RespModel::SimpleString(s@),
            Resp::BulkString(s) => RespModel::BulkString(s@),
            Resp::Error(s) => RespModel::Error(s@),
            Resp::Integer(i) => RespModel::Integer(*i as int),
            Resp::Nil => RespModel::Nil,
        }
    }
}

pub open spec fn crlf_chars() -> Seq<char> {
    seq!['\r', '\n']
}

/// A (possibly negative) integer in decimal.
pub open spec fn int_chars(i: int) -> Seq<char> {
    if i < 0 {
        seq!['-'] + dec_digits((-i) as nat)
    } else {
        dec_digits(i as nat)
    }
}

/// The byte length a bulk string declares: the length of the text's UTF-8
/// encoding, as the machine-word-sized `str::len` reports it.
pub open spec fn declared_len(s: Seq<char>) -> nat {
    encode_utf8(s).len() as usize as nat
}

/// The exact wire form of a reply: status `+<text>`, bulk string
/// `$<byte-length>` then the bytes, nil `$-1`, error `-<text>`, integer
/// `:<value>`, each line CRLF-terminated. A bulk string's declared length
/// is the length of its UTF-8 encoding, always equal to its byte length.
pub open spec fn reply_chars(m: RespModel) -> Seq<char> {
    match m {
        RespModel::SimpleString(s) => seq!['+'] + s + crlf_chars(),
        RespModel::BulkString(s) => seq!['$'] + dec_digits(declared_len(s)) + crlf_chars()
            + s + crlf_chars(),
        RespModel::Error(s) => seq!['-'] + s + crlf_chars(),
        RespModel::Integer(i) => seq![':'] + int_chars(i) + crlf_chars(),
        RespModel::Nil => seq!['$', '-', '1', '\r', '\n'],
    }
}

/// The wire bytes of a reply: the UTF-8 encoding of its character form.
pub open spec fn reply_bytes(m: RespModel) -> Seq<u8> {
    encode_utf8(reply_chars(m))
}

/// UTF-8 encoding distributes over concatenation: a text's bytes appear
/// verbatim inside the encoding of any text that embeds it whole.
pub proof fn lemma_encode_utf8_concat(a: Seq<char>, b: Seq<char>)
    ensures
        encode_utf8(a + b) == encode_utf8(a) + encode_utf8(b),
    decreases a.len(),
{
    if a.len() == 0 {
        assert(a + b =~= b);
        assert(encode_utf8(a) + encode_utf8(b) =~= encode_utf8(b));
    } else {
        assert((a + b)[0] == a[0]);
        assert((a + b).drop_first() =~= a.drop_first() + b);
        lemma_encode_utf8_concat(a.drop_first(), b);
        assert(vstd::utf8::encode_scalar(a[0] as u32) + (encode_utf8(a.drop_first())
            + encode_utf8(b)) =~= (vstd::utf8::encode_scalar(a[0] as u32) + encode_utf8(
            a.drop_first(),
        )) + encode_utf8(b));
    }
}

/// A (possibly negative) integer rendered in decimal.
pub fn i64_string(i: i64) -> (r: String)
    ensures
        r@ == int_chars(i as int),
{
    if i >= 0 {
        let r = u64_digits(i as u64);
        r
    } else {
        let mag: u64 = (-(i as i128)) as u64;
        let mut m = String::from_str("-");
        let d = u64_digits(mag);
        m.append(d.as_str());
        proof {
            reveal_strlit("-");
            assert(m@ =~= int_chars(i as int));
        }
        m
    }
}

impl Resp {
    /// Serializes the reply into its exact wire bytes. Pure and
    /// deterministic: equal replies encode to equal bytes, always.
    pub fn as_bytes(&self) -> (r: Vec<u8>)
        ensures
            r@ == reply_bytes(self@),
    {
        let msg: String = match self {
            Resp::SimpleString(s) => {
                let mut m = String::from_str("+");
                m.append(s.as_str());
                m.append("\r\n");
                proof {
                    reveal_strlit("+");
                    reveal_strlit("\r\n");
                    assert(m@ =~= reply_chars(self@));
                }
                m
            },
            Resp::BulkString(s) => {
                let blen = s.as_str().len();
                let mut m = String::from_str("$");
                let d = u64_digits(blen as u64);
                m.append(d.as_str());
                m.append("\r\n");
                m.append(s.as_str());
                m.append("\r\n");
                proof {
                    reveal_strlit("$");
                    reveal_strlit("\r\n");
                    assert(blen == declared_len(s@));
                    assert(m@ =~= reply_chars(self@));
                }
                m
            },
            Resp::Error(s) => {
                let mut m = String::from_str("-");
                m.append(s.as_str());
                m.append("\r\n");
                proof {
                    reveal_strlit("-");
                    reveal_strlit("\r\n");
                    assert(m@ =~= reply_chars(self@));
                }
                m
            },
            Resp::Integer(i) => {
                let mut m = String::from_str(":");
                let d = i64_string(*i);
                m.append(d.as_str());
                m.append("\r\n");
                proof {
                    reveal_strlit(":");
                    reveal_strlit("\r\n");
                    assert(m@ =~= reply_chars(self@));
                }
                m
            },
            Resp::Nil => {
                let m = String::from_str("$-1\r\n");
                proof {
                    reveal_strlit("$-1\r\n");
                    assert(m@ =~= reply_chars(self@));
                }
                m
            },
        };
        let r = msg.as_str().as_bytes_vec();
        r
    }
}

} // verus!
