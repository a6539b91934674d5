//! The wire-protocol value model and its codec.
//!
//! A value is decoded from a sequence of logical lines (the transport strips
//! the `\r\n` terminators) and encoded back to the character stream that is
//! written to the wire. The decoder consumes exactly the lines of one value
//! per call; the encoder is a pure, total function.

use vstd::prelude::*;
use vstd::string::*;
use vstd::utf8::encode_utf8;

use crate::digits::{dec_digits, dec_str, digits_val, is_digits, lemma_dec_digits_val, parse_u128};

verus! {

/// A decoded or to-be-encoded protocol value.
#[derive(Debug)]
pub enum Resp {
    Array(Vec<Resp>),
    BulkString(String),
    SimpleString(String),
    NullBulkString,
}

/// The mathematical model of a protocol value.
#[verifier::ext_equal]
pub enum RespModel {
    Array(Seq<RespModel>),
    BulkString(Seq<char>),
    SimpleString(Seq<char>),
    NullBulkString,
}

impl Resp {
    /// The model of this value.
    pub open spec fn deep(self) -> RespModel
        decreases self,
    {
        match self {
            Resp::Array(items) => RespModel::Array(deep_list(items@)),
            Resp::BulkString(s) => RespModel::BulkString(s@),
            Resp::SimpleString(s) => RespModel::SimpleString(s@),
            Resp::NullBulkString => RespModel::NullBulkString,
        }
    }
}

/// The models of a sequence of values.
pub open spec fn deep_list(items: Seq<Resp>) -> Seq<RespModel>
    decreases items,
{
    if items.len() == 0 {
        Seq::empty()
    } else {
        seq![items[0].deep()] + deep_list(items.drop_first())
    }
}

/// The line source could not supply a line: an I/O failure of the
/// transport, as opposed to an orderly end of input.
#[derive(Debug, PartialEq, Eq, Structural)]
pub struct NextSequenceError;

/// Why a value could not be decoded.
#[derive(Debug, PartialEq, Eq, Structural)]
pub enum RespError {
    /// No further line exists where one was needed.
    Exhausted,
    /// A line with no characters at all.
    EmptySequence,
    /// The leading character selects no known value grammar.
    Unrecognised(char),
    /// The `*` header carried no parseable element count.
    MissingArrayLength,
    /// The `$` header carried no parseable payload length.
    MissingBulkStringLength,
    /// The declared and the received payload byte length (in that order)
    /// differ.
    BulkStringLength(usize, usize),
}

/// The line terminator of the wire protocol.
pub open spec fn crlf() -> Seq<char> {
    seq!['\r', '\n']
}

/// The UTF-8 byte length of a character sequence: the length a bulk string
/// declares on the wire.
pub open spec fn byte_len(s: Seq<char>) -> nat {
    encode_utf8(s).len()
}

/// The character stream that a value encodes to.
pub open spec fn enc(v: RespModel) -> Seq<char>
    decreases v,
{
    match v {
        RespModel::BulkString(s) => seq!['$'] + dec_digits(byte_len(s)) + crlf() + s + crlf(),
        RespModel::SimpleString(s) => seq!['+'] + s + crlf(),
        RespModel::NullBulkString => seq!['$', '-', '1'] + crlf(),
        RespModel::Array(items) => seq!['*'] + dec_digits(items.len()) + crlf() + enc_list(items),
    }
}

/// The concatenated encodings of a sequence of values.
pub open spec fn enc_list(items: Seq<RespModel>) -> Seq<char>
    decreases items,
{
    if items.len() == 0 {
        Seq::empty()
    } else {
        enc(items[0]) + enc_list(items.drop_first())
    }
}

/// The logical lines that a value's encoding spans, without terminators.
pub open spec fn enc_lines(v: RespModel) -> Seq<Seq<char>>
    decreases v,
{
    match v {
        RespModel::BulkString(s) => seq![seq!['$'] + dec_digits(byte_len(s)), s],
        RespModel::SimpleString(s) => seq![seq!['+'] + s],
        RespModel::NullBulkString => seq![seq!['$', '-', '1']],
        RespModel::Array(items) => seq![seq!['*'] + dec_digits(items.len())] + enc_lines_list(
            items,
        ),
    }
}

/// The concatenated line sequences of a sequence of values.
pub open spec fn enc_lines_list(items: Seq<RespModel>) -> Seq<Seq<char>>
    decreases items,
{
    if items.len() == 0 {
        Seq::empty()
    } else {
        enc_lines(items[0]) + enc_lines_list(items.drop_first())
    }
}

/// Joins logical lines with the wire terminator.
pub open spec fn join_crlf(ls: Seq<Seq<char>>) -> Seq<char>
    decreases ls,
{
    if ls.len() == 0 {
        Seq::empty()
    } else {
        ls[0] + crlf() + join_crlf(ls.drop_first())
    }
}

/// A length prefix parses exactly when it is a non-empty digit string whose
/// value fits the machine; mirrors the decoder's integer grammar.
pub open spec fn parse_len(s: Seq<char>) -> Option<nat> {
    if s.len() > 0 && is_digits(s) && digits_val(s) <= usize::MAX {
        Some(digits_val(s))
    } else {
        None
    }
}

/// The lines that remain from `pos` on.
pub open spec fn rem_lines(lines: Seq<Seq<char>>, pos: nat) -> int {
    if pos <= lines.len() {
        lines.len() - pos
    } else {
        0
    }
}

/// The decoder, one value per call: either the value and the number of lines
/// it spans, or the first error met.
pub open spec fn sdec(lines: Seq<Seq<char>>, pos: nat) -> Result<(RespModel, nat), RespError>
    decreases rem_lines(lines, pos), 0int,
{
    if pos >= lines.len() {
        Err(RespError::Exhausted)
    } else {
        let line = lines[pos as int];
        if line.len() == 0 {
            Err(RespError::EmptySequence)
        } else if line[0] == '*' {
            match parse_len(line.subrange(1, line.len() as int)) {
                Some(n) => match sdec_list(lines, (pos + 1) as nat, n) {
                    Ok((items, used)) => Ok((RespModel::Array(items), (1 + used) as nat)),
                    Err(e) => Err(e),
                },
                None => Err(RespError::MissingArrayLength),
            }
        } else if line[0] == '$' {
            match parse_len(line.subrange(1, line.len() as int)) {
                Some(n) => {
                    if pos + 1 >= lines.len() {
                        Err(RespError::Exhausted)
                    } else {
                        let payload = lines[pos + 1int];
                        if byte_len(payload) == n {
                            Ok((RespModel::BulkString(payload), 2))
                        } else {
                            Err(
                                RespError::BulkStringLength(
                                    n as usize,
                                    byte_len(payload) as usize,
                                ),
                            )
                        }
                    }
                },
                None => Err(RespError::MissingBulkStringLength),
            }
        } else {
            Err(RespError::Unrecognised(line[0]))
        }
    }
}

/// Decodes `n` consecutive values starting at `pos`.
pub open spec fn sdec_list(lines: Seq<Seq<char>>, pos: nat, n: nat) -> Result<
    (Seq<RespModel>, nat),
    RespError,
>
    decreases rem_lines(lines, pos), n,
{
    if n == 0 {
        Ok((Seq::empty(), 0))
    } else {
        match sdec(lines, pos) {
            Ok((v, used)) => match sdec_list(lines, (pos + used) as nat, (n - 1) as nat) {
                Ok((rest, used2)) => Ok((seq![v] + rest, (used + used2) as nat)),
                Err(e) => Err(e),
            },
            Err(e) => Err(e),
        }
    }
}

/// A decoded value spans no more lines than remain.
pub proof fn lemma_sdec_used(lines: Seq<Seq<char>>, pos: nat)
    ensures
        (match sdec(lines, pos) {
            Ok((v, used)) => used >= 1 && pos + used <= lines.len(),
            Err(e) => true,
        }),
    decreases rem_lines(lines, pos), 0int,
{
    if pos >= lines.len() {
    } else {
        let line = lines[pos as int];
        if line.len() == 0 {
        } else if line[0] == '*' {
            match parse_len(line.subrange(1, line.len() as int)) {
                Some(n) => {
                    lemma_sdec_list_used(lines, (pos + 1) as nat, n);
                },
                None => {},
            }
        } else {
        }
    }
}

/// The models of a snoc are the models followed by the model of the new item.
proof fn lemma_deep_list_snoc(s: Seq<Resp>, v: Resp)
    ensures
        deep_list(s.push(v)) == deep_list(s) + seq![v.deep()],
    decreases s.len(),
{
    if s.len() == 0 {
        assert(s.push(v).drop_first() =~= Seq::<Resp>::empty());
        assert(deep_list(Seq::<Resp>::empty()) == Seq::<RespModel>::empty());
        assert(s.push(v)[0] == v);
        assert(deep_list(s.push(v)) =~= deep_list(s) + seq![v.deep()]);
    } else {
        lemma_deep_list_snoc(s.drop_first(), v);
        assert(s.push(v).drop_first() =~= s.drop_first().push(v));
        assert(s.push(v)[0] == s[0]);
        assert(deep_list(s.push(v)) == seq![s[0].deep()] + deep_list(s.drop_first().push(v)));
        assert(deep_list(s.push(v)) =~= deep_list(s) + seq![v.deep()]);
    }
}

/// Decoded value sequences span no more lines than remain.
pub proof fn lemma_sdec_list_used(lines: Seq<Seq<char>>, pos: nat, n: nat)
    requires
        pos <= lines.len(),
    ensures
        (match sdec_list(lines, pos, n) {
            Ok((items, used)) => pos + used <= lines.len() && items.len() == n,
            Err(e) => true,
        }),
    decreases rem_lines(lines, pos), n,
{
    if n == 0 {
    } else {
        lemma_sdec_used(lines, pos);
        match sdec(lines, pos) {
            Ok((v, used)) => {
                lemma_sdec_list_used(lines, (pos + used) as nat, (n - 1) as nat);
            },
            Err(e) => {},
        }
    }
}

/// A sequence of values and the sequence of their models have one length.
pub proof fn lemma_deep_list_len(s: Seq<Resp>)
    ensures
        deep_list(s).len() == s.len(),
    decreases s.len(),
{
    if s.len() == 0 {
    } else {
        lemma_deep_list_len(s.drop_first());
    }
}

/// The model at `i` is the model of the value at `i`.
pub proof fn lemma_deep_list_index(s: Seq<Resp>, i: int)
    requires
        0 <= i < s.len(),
    ensures
        deep_list(s)[i] == s[i].deep(),
    decreases s.len(),
{
    lemma_deep_list_len(s.drop_first());
    if i == 0 {
    } else {
        lemma_deep_list_index(s.drop_first(), i - 1);
        assert(s.drop_first()[i - 1] == s[i]);
    }
}

/// The encoding of a snoc is the encodings followed by the new encoding.
proof fn lemma_enc_list_snoc(s: Seq<RespModel>, v: RespModel)
    ensures
        enc_list(s.push(v)) == enc_list(s) + enc(v),
    decreases s.len(),
{
    if s.len() == 0 {
        assert(s.push(v).drop_first() =~= Seq::<RespModel>::empty());
        assert(enc_list(Seq::<RespModel>::empty()) == Seq::<char>::empty());
        assert(s.push(v)[0] == v);
        assert(enc_list(s.push(v)) =~= enc_list(s) + enc(v));
    } else {
        lemma_enc_list_snoc(s.drop_first(), v);
        assert(s.push(v).drop_first() =~= s.drop_first().push(v));
        assert(s.push(v)[0] == s[0]);
        assert(enc_list(s.push(v)) == enc(s[0]) + enc_list(s.drop_first().push(v)));
        assert(enc_list(s.push(v)) =~= enc_list(s) + enc(v));
    }
}

impl Resp {
    /// Encodes this value to the character stream written to the wire.
    #[verifier::loop_isolation(false)]
    pub fn encode(&self) -> (r: String)
        ensures
            r@ == enc(self.deep()),
        decreases *self,
    {
        proof {
            reveal_strlit("$");
            reveal_strlit("+");
            reveal_strlit("*");
            reveal_strlit("$-1\r\n");
            reveal_strlit("\r\n");
        }
        match self {
            Resp::BulkString(bulk_string) => {
                let mut r = String::from_str("$");
                let payload_bytes = bulk_string.as_str().as_bytes();
                proof {
                    assert(payload_bytes@ == encode_utf8(bulk_string@));
                }
                let length = dec_str(payload_bytes.len());
                r.append(length.as_str());
                r.append("\r\n");
                r.append(bulk_string.as_str());
                r.append("\r\n");
                proof {
                    assert(r@ =~= enc(self.deep()));
                }
                r
            },
            Resp::SimpleString(simple_string) => {
                let mut r = String::from_str("+");
                r.append(simple_string.as_str());
                r.append("\r\n");
                proof {
                    assert(r@ =~= enc(self.deep()));
                }
                r
            },
            Resp::NullBulkString => {
                let r = String::from_str("$-1\r\n");
                proof {
                    assert(r@ =~= enc(self.deep()));
                }
                r
            },
            Resp::Array(array) => {
                let mut r = String::from_str("*");
                let count = dec_str(array.len());
                r.append(count.as_str());
                r.append("\r\n");
                let ghost header = r@;
                let mut i: usize = 0;
                proof {
                    assert(array@.subrange(0, 0) =~= Seq::<Resp>::empty());
                    assert(deep_list(Seq::<Resp>::empty()) == Seq::<RespModel>::empty());
                    assert(enc_list(Seq::<RespModel>::empty()) == Seq::<char>::empty());
                    assert(r@ =~= header + enc_list(deep_list(array@.subrange(0, 0))));
                }
                while i < array.len()
                    invariant
                        i <= array@.len(),
                        header == seq!['*'] + dec_digits(array@.len()) + crlf(),
                        r@ == header + enc_list(deep_list(array@.subrange(0, i as int))),
                    decreases array@.len() - i,
                {
                    proof {
                        assert((*self)->Array_0 == *array);
                        assert(decreases_to!(*self => (*self)->Array_0));
                        assert(decreases_to!(*array => array@));
                        assert(decreases_to!(array@ => array@[i as int]));
                        assert(decreases_to!(*self => array@[i as int]));
                    }
                    let item_chars = array[i].encode();
                    r.append(item_chars.as_str());
                    proof {
                        let prefix = array@.subrange(0, i as int);
                        let item_model = array@[i as int].deep();
                        lemma_deep_list_snoc(prefix, array@[i as int]);
                        lemma_enc_list_snoc(deep_list(prefix), item_model);
                        assert(array@.subrange(0, i + 1) =~= prefix.push(array@[i as int]));
                        assert(deep_list(prefix) + seq![item_model] =~= deep_list(prefix).push(
                            item_model,
                        ));
                        assert(deep_list(array@.subrange(0, i + 1)) == deep_list(prefix).push(
                            item_model,
                        ));
                        assert(enc_list(deep_list(array@.subrange(0, i + 1))) == enc_list(
                            deep_list(prefix),
                        ) + enc(item_model));
                        assert(r@ =~= header + enc_list(deep_list(array@.subrange(0, i + 1))));
                    }
                    i = i + 1;
                }
                proof {
                    lemma_deep_list_len(array@);
                    assert(array@.subrange(0, array@.len() as int) =~= array@);
                    assert(r@ =~= enc(self.deep()));
                }
                r
            },
        }
    }
}

/// Whether a value can stand in a request: arrays and bulk strings whose
/// lengths fit the machine. Simple strings and the null bulk string have no
/// request grammar (the decoder knows no `+` rule, and `$-1` carries no
/// parseable length), so no request can hold them.
pub open spec fn request_encodable(v: RespModel) -> bool
    decreases v,
{
    match v {
        RespModel::BulkString(s) => byte_len(s) <= usize::MAX,
        RespModel::Array(items) => items.len() <= usize::MAX && (forall|i: int|
            0 <= i < items.len() ==> request_encodable(#[trigger] items[i])),
        RespModel::SimpleString(_) => false,
        RespModel::NullBulkString => false,
    }
}

/// Joining distributes over concatenation of line sequences.
proof fn lemma_join_crlf_concat(a: Seq<Seq<char>>, b: Seq<Seq<char>>)
    ensures
        join_crlf(a + b) == join_crlf(a) + join_crlf(b),
    decreases a.len(),
{
    if a.len() == 0 {
        assert(a + b =~= b);
        assert(join_crlf(a) =~= Seq::<char>::empty());
        assert(join_crlf(a) + join_crlf(b) =~= join_crlf(b));
    } else {
        lemma_join_crlf_concat(a.drop_first(), b);
        assert((a + b)[0] == a[0]);
        assert((a + b).drop_first() =~= a.drop_first() + b);
        assert(join_crlf(a + b) =~= join_crlf(a) + join_crlf(b));
    }
}

/// The character stream of a value is its logical lines joined with the
/// wire terminator.
pub proof fn lemma_enc_join(v: RespModel)
    ensures
        enc(v) == join_crlf(enc_lines(v)),
    decreases v,
{
    match v {
        RespModel::BulkString(s) => {
            let hdr = seq!['$'] + dec_digits(byte_len(s));
            assert(join_crlf(Seq::<Seq<char>>::empty()) == Seq::<char>::empty());
            assert(seq![s].drop_first() =~= Seq::<Seq<char>>::empty());
            assert(join_crlf(seq![s]) =~= s + crlf());
            assert(enc_lines(v)[0] == hdr);
            assert(enc_lines(v).drop_first() =~= seq![s]);
            assert(join_crlf(enc_lines(v)) == hdr + crlf() + join_crlf(seq![s]));
            assert(enc(v) =~= join_crlf(enc_lines(v)));
        },
        RespModel::SimpleString(s) => {
            assert(join_crlf(Seq::<Seq<char>>::empty()) == Seq::<char>::empty());
            assert(enc_lines(v)[0] == seq!['+'] + s);
            assert(enc_lines(v).drop_first() =~= Seq::<Seq<char>>::empty());
            assert(join_crlf(enc_lines(v)) == (seq!['+'] + s) + crlf() + join_crlf(
                Seq::<Seq<char>>::empty(),
            ));
            assert(enc(v) =~= join_crlf(enc_lines(v)));
        },
        RespModel::NullBulkString => {
            assert(join_crlf(Seq::<Seq<char>>::empty()) == Seq::<char>::empty());
            assert(enc_lines(v)[0] == seq!['$', '-', '1']);
            assert(enc_lines(v).drop_first() =~= Seq::<Seq<char>>::empty());
            assert(join_crlf(enc_lines(v)) == seq!['$', '-', '1'] + crlf() + join_crlf(
                Seq::<Seq<char>>::empty(),
            ));
            assert(enc(v) =~= join_crlf(enc_lines(v)));
        },
        RespModel::Array(items) => {
            lemma_enc_join_list(items);
            let hdr = seq!['*'] + dec_digits(items.len());
            assert(enc_lines(v)[0] == hdr);
            assert(enc_lines(v).drop_first() =~= enc_lines_list(items));
            assert(join_crlf(enc_lines(v)) == hdr + crlf() + join_crlf(enc_lines_list(items)));
            assert(enc(v) =~= join_crlf(enc_lines(v)));
        },
    }
}

/// The concatenated encodings of a value sequence are its concatenated
/// lines joined with the wire terminator.
proof fn lemma_enc_join_list(items: Seq<RespModel>)
    ensures
        enc_list(items) == join_crlf(enc_lines_list(items)),
    decreases items,
{
    if items.len() == 0 {
        assert(enc_list(items) =~= join_crlf(enc_lines_list(items)));
    } else {
        lemma_enc_join(items[0]);
        lemma_enc_join_list(items.drop_first());
        lemma_join_crlf_concat(enc_lines(items[0]), enc_lines_list(items.drop_first()));
        assert(enc_list(items) =~= join_crlf(enc_lines_list(items)));
    }
}

/// Decoding the encoded lines of a request-constructible value, wherever
/// they stand in the buffer, yields the value back and consumes exactly its
/// lines.
pub proof fn lemma_encode_round_trip(v: RespModel, lines: Seq<Seq<char>>, pos: nat)
    requires
        request_encodable(v),
        pos + enc_lines(v).len() <= lines.len(),
        lines.subrange(pos as int, (pos + enc_lines(v).len()) as int) == enc_lines(v),
    ensures
        sdec(lines, pos) == Ok::<(RespModel, nat), RespError>((v, enc_lines(v).len())),
    decreases v,
{
    match v {
        RespModel::BulkString(s) => {
            let hdr = seq!['$'] + dec_digits(byte_len(s));
            assert(lines[pos as int] == enc_lines(v)[0]);
            assert(lines[pos as int] == hdr);
            lemma_dec_digits_val(byte_len(s));
            assert(hdr.len() >= 1);
            assert(hdr[0] == '$');
            assert(hdr.subrange(1, hdr.len() as int) =~= dec_digits(byte_len(s)));
            assert(parse_len(hdr.subrange(1, hdr.len() as int)) == Some(byte_len(s)));
            assert(lines[pos + 1int] == enc_lines(v)[1]);
            assert(lines[pos + 1int] == s);
            assert(sdec(lines, pos) == Ok::<(RespModel, nat), RespError>((v, 2)));
        },
        RespModel::Array(items) => {
            let hdr = seq!['*'] + dec_digits(items.len());
            let body = enc_lines_list(items);
            assert(lines[pos as int] == enc_lines(v)[0]);
            assert(lines[pos as int] == hdr);
            lemma_dec_digits_val(items.len());
            assert(hdr.len() >= 1);
            assert(hdr[0] == '*');
            assert(hdr.subrange(1, hdr.len() as int) =~= dec_digits(items.len()));
            assert(parse_len(hdr.subrange(1, hdr.len() as int)) == Some(items.len()));
            assert(enc_lines(v).len() == 1 + body.len());
            assert forall|j: int| 0 <= j < body.len() implies lines[pos + 1 + j] == body[j] by {
                assert(lines[pos + 1 + j] == lines.subrange(
                    pos as int,
                    (pos + enc_lines(v).len()) as int,
                )[1 + j]);
                assert(enc_lines(v)[1 + j] == body[j]);
            }
            assert(lines.subrange(pos + 1int, (pos + 1 + body.len()) as int) =~= body);
            lemma_encode_round_trip_list(items, lines, (pos + 1) as nat);
            assert(sdec_list(lines, (pos + 1) as nat, items.len()) == Ok::<
                (Seq<RespModel>, nat),
                RespError,
            >((items, body.len())));
            assert(sdec(lines, pos) == Ok::<(RespModel, nat), RespError>(
                (v, enc_lines(v).len()),
            ));
        },
        RespModel::SimpleString(_) => {
        },
        RespModel::NullBulkString => {
        },
    }
}

/// Decoding as many values as a sequence holds, against its concatenated
/// encoded lines, yields the sequence back.
proof fn lemma_encode_round_trip_list(items: Seq<RespModel>, lines: Seq<Seq<char>>, pos: nat)
    requires
        forall|i: int| 0 <= i < items.len() ==> request_encodable(#[trigger] items[i]),
        pos + enc_lines_list(items).len() <= lines.len(),
        lines.subrange(pos as int, (pos + enc_lines_list(items).len()) as int) == enc_lines_list(items),
    ensures
        sdec_list(lines, pos, items.len()) == Ok::<(Seq<RespModel>, nat), RespError>(
            (items, enc_lines_list(items).len()),
        ),
    decreases items,
{
    if items.len() == 0 {
        assert(items =~= Seq::<RespModel>::empty());
    } else {
        let head = items[0];
        let tail = items.drop_first();
        let hl = enc_lines(head);
        let tl = enc_lines_list(tail);
        assert(enc_lines_list(items) == hl + tl);
        assert forall|j: int| 0 <= j < hl.len() implies lines[pos + j] == hl[j] by {
            assert(lines[pos + j] == lines.subrange(
                pos as int,
                (pos + enc_lines_list(items).len()) as int,
            )[j]);
            assert(enc_lines_list(items)[j] == hl[j]);
        }
        assert(lines.subrange(pos as int, (pos + hl.len()) as int) =~= hl);
        lemma_encode_round_trip(head, lines, pos);
        assert forall|j: int| 0 <= j < tl.len() implies lines[pos + hl.len() + j] == tl[j] by {
            assert(lines[pos + hl.len() + j] == lines.subrange(
                pos as int,
                (pos + enc_lines_list(items).len()) as int,
            )[hl.len() + j]);
            assert(enc_lines_list(items)[hl.len() + j] == tl[j]);
        }
        assert(lines.subrange((pos + hl.len()) as int, (pos + hl.len() + tl.len()) as int) =~= tl);
        lemma_encode_round_trip_list(tail, lines, (pos + hl.len()) as nat);
        assert(sdec_list(lines, (pos + hl.len()) as nat, tail.len()) == Ok::<
            (Seq<RespModel>, nat),
            RespError,
        >((tail, tl.len())));
        assert(seq![head] + tail =~= items);
        assert(sdec_list(lines, pos, items.len()) == Ok::<(Seq<RespModel>, nat), RespError>(
            (seq![head] + tail, (hl.len() + tl.len()) as nat),
        ));
        assert(sdec_list(lines, pos, items.len()) == Ok::<(Seq<RespModel>, nat), RespError>(
            (items, enc_lines_list(items).len()),
        ));
    }
}

/// Law: encoding a request-constructible value and then decoding yields the
/// value back, whatever lines follow it in the buffer.
pub proof fn lemma_round_trip(v: RespModel, rest: Seq<Seq<char>>)
    requires
        request_encodable(v),
    ensures
        sdec(enc_lines(v) + rest, 0) == Ok::<(RespModel, nat), RespError>(
            (v, enc_lines(v).len()),
        ),
{
    let lines = enc_lines(v) + rest;
    assert(lines.subrange(0, enc_lines(v).len() as int) =~= enc_lines(v));
    lemma_encode_round_trip(v, lines, 0);
}

/// The views of the buffered lines.
pub open spec fn line_views(lines: Seq<String>) -> Seq<Seq<char>> {
    Seq::new(lines.len(), |i: int| lines[i]@)
}

/// Reads the length prefix after the type character: the tail of `line`
/// parsed as a machine-sized decimal.
fn parse_length_prefix(line: &String) -> (r: Option<usize>)
    requires
        line@.len() >= 1,
    ensures
        (match parse_len(line@.subrange(1, line@.len() as int)) {
            Some(v) => r matches Some(u) && u as nat == v,
            None => r is None,
        }),
{
    let n = line.as_str().unicode_len();
    let rest = line.as_str().substring_char(1, n);
    match parse_u128(rest) {
        Some(v) => {
            if v <= usize::MAX as u128 {
                Some(v as usize)
            } else {
                None
            }
        },
        None => None,
    }
}

/// Decodes one value beginning at line `pos`; returns it with the number of
/// lines it spans.
fn parse_resp(lines: &Vec<String>, pos: usize) -> (r: Result<(Resp, usize), RespError>)
    ensures
        (match sdec(line_views(lines@), pos as nat) {
            Ok((v, used)) => r matches Ok(p) && p.0.deep() == v && p.1 as nat == used,
            Err(e) => r matches Err(e2) && e2 == e,
        }),
    decreases rem_lines(line_views(lines@), pos as nat), 0int,
{
    let ghost lv = line_views(lines@);
    if pos >= lines.len() {
        return Err(RespError::Exhausted);
    }
    let line: &String = &lines[pos];
    let n = line.as_str().unicode_len();
    if n == 0 {
        return Err(RespError::EmptySequence);
    }
    let first = line.as_str().get_char(0);
    if first == '*' {
        match parse_length_prefix(line) {
            Some(count) => {
                proof {
                    lemma_sdec_list_used(lv, (pos + 1) as nat, count as nat);
                }
                match parse_array(lines, pos + 1, count) {
                    Ok((items, used)) => Ok((Resp::Array(items), 1 + used)),
                    Err(e) => Err(e),
                }
            },
            None => Err(RespError::MissingArrayLength),
        }
    } else if first == '$' {
        match parse_length_prefix(line) {
            Some(length) => parse_bulk_string(lines, pos, length),
            None => Err(RespError::MissingBulkStringLength),
        }
    } else {
        Err(RespError::Unrecognised(first))
    }
}

/// Decodes `n` consecutive values beginning at line `pos`.
fn parse_array(lines: &Vec<String>, pos: usize, n: usize) -> (r: Result<
    (Vec<Resp>, usize),
    RespError,
>)
    requires
        pos as nat <= lines@.len(),
    ensures
        (match sdec_list(line_views(lines@), pos as nat, n as nat) {
            Ok((models, used)) => r matches Ok(p) && deep_list(p.0@) == models && p.1 as nat
                == used && pos + used <= lines@.len(),
            Err(e) => r matches Err(e2) && e2 == e,
        }),
    decreases rem_lines(line_views(lines@), pos as nat), 1int,
{
    let ghost lv = line_views(lines@);
    let total = lines.len();
    let mut items: Vec<Resp> = Vec::new();
    let mut cur = pos;
    let mut i: usize = 0;
    proof {
        assert(deep_list(items@) =~= Seq::<RespModel>::empty());
    }
    while i < n
        invariant
            i <= n,
            pos <= cur <= lines@.len(),
            lines@.len() == total,
            lv == line_views(lines@),
            (match sdec_list(lv, cur as nat, (n - i) as nat) {
                Ok((rest, u2)) => sdec_list(lv, pos as nat, n as nat) == Ok::<
                    (Seq<RespModel>, nat),
                    RespError,
                >((deep_list(items@) + rest, ((cur - pos) + u2) as nat)),
                Err(e) => sdec_list(lv, pos as nat, n as nat) == Err::<
                    (Seq<RespModel>, nat),
                    RespError,
                >(e),
            }),
        decreases n - i,
    {
        proof {
            lemma_sdec_used(lv, cur as nat);
        }
        match parse_resp(lines, cur) {
            Ok((v, used)) => {
                proof {
                    lemma_deep_list_snoc(items@, v);
                }
                let ghost old_items = items@;
                let ghost old_cur = cur as nat;
                items.push(v);
                cur = cur + used;
                i = i + 1;
                proof {
                    assert(deep_list(items@) =~= deep_list(old_items) + seq![v.deep()]);
                    match sdec_list(lv, cur as nat, (n - i) as nat) {
                        Ok((rest, u2)) => {
                            assert(sdec_list(lv, old_cur, (n - i + 1) as nat) == Ok::<
                                (Seq<RespModel>, nat),
                                RespError,
                            >((seq![v.deep()] + rest, (used + u2) as nat)));
                            assert(deep_list(old_items) + (seq![v.deep()] + rest) =~= deep_list(
                                items@,
                            ) + rest);
                        },
                        Err(e) => {},
                    }
                }
            },
            Err(e) => {
                return Err(e);
            },
        }
    }
    proof {
        assert(deep_list(items@) + Seq::<RespModel>::empty() =~= deep_list(items@));
    }
    Ok((items, cur - pos))
}

/// Decodes the payload of a bulk string whose header stands at line `pos`
/// and declared a length of `string_length` bytes.
fn parse_bulk_string(lines: &Vec<String>, pos: usize, string_length: usize) -> (r: Result<
    (Resp, usize),
    RespError,
>)
    requires
        (pos as nat) < lines@.len(),
    ensures
        (match r {
            Ok(p) => pos + 1 < lines@.len() && byte_len(lines@[pos as int + 1]@)
                == string_length && p.0.deep() == RespModel::BulkString(
                lines@[pos as int + 1]@,
            ) && p.1 == 2,
            Err(RespError::Exhausted) => pos + 1 >= lines@.len(),
            Err(RespError::BulkStringLength(a, b)) => pos + 1 < lines@.len() && a
                == string_length && b as nat == byte_len(lines@[pos as int + 1]@) && a != b,
            Err(_) => false,
        }),
{
    let total = lines.len();
    if pos + 1 >= total {
        return Err(RespError::Exhausted);
    }
    let payload: &String = &lines[pos + 1];
    let payload_bytes = payload.as_str().as_bytes();
    proof {
        assert(payload_bytes@ == encode_utf8(payload@));
    }
    let payload_length = payload_bytes.len();
    if payload_length != string_length {
        Err(RespError::BulkStringLength(string_length, payload_length))
    } else {
        Ok((Resp::BulkString(payload.clone()), 2))
    }
}

/// Builds protocol values out of buffered logical lines. Lines are appended
/// as the transport delivers them; each successful `next_resp` consumes the
/// lines of exactly one value.
pub struct RespBuilder {
    lines: Vec<String>,
    pos: usize,
}

impl RespBuilder {
    /// The lines buffered so far.
    pub closed spec fn lines_model(self) -> Seq<Seq<char>> {
        line_views(self.lines@)
    }

    /// The position of the first unconsumed line.
    pub closed spec fn cursor(self) -> nat {
        self.pos as nat
    }

    /// The cursor never runs past the buffer.
    pub closed spec fn wf(self) -> bool {
        self.pos as nat <= self.lines@.len()
    }

    /// An empty builder.
    pub fn new() -> (r: Self)
        ensures
            r.wf(),
            r.lines_model() == Seq::<Seq<char>>::empty(),
            r.cursor() == 0,
    {
        proof {
            assert(line_views(Seq::<String>::empty()) =~= Seq::<Seq<char>>::empty());
        }
        Self { lines: Vec::new(), pos: 0 }
    }

    /// Appends one logical line delivered by the transport.
    pub fn push_line(&mut self, line: String)
        requires
            old(self).wf(),
        ensures
            final(self).wf(),
            final(self).lines_model() == old(self).lines_model().push(line@),
            final(self).cursor() == old(self).cursor(),
    {
        proof {
            assert(line_views(self.lines@.push(line)) =~= line_views(self.lines@).push(line@));
        }
        self.lines.push(line);
    }

    /// Whether every buffered line has been consumed.
    pub fn at_end(&self) -> (b: bool)
        requires
            self.wf(),
        ensures
            b == (self.cursor() == self.lines_model().len()),
    {
        self.pos == self.lines.len()
    }

    /// Decodes the next value. On success the lines it spans are consumed;
    /// on an error the cursor stands where it stood, so that decoding can be
    /// retried once more lines have arrived.
    pub fn next_resp(&mut self) -> (r: Result<Resp, RespError>)
        requires
            old(self).wf(),
        ensures
            final(self).wf(),
            final(self).lines_model() == old(self).lines_model(),
            (match sdec(old(self).lines_model(), old(self).cursor()) {
                Ok((v, used)) => r matches Ok(resp) && resp.deep() == v && final(self).cursor()
                    == old(self).cursor() + used,
                Err(e) => r matches Err(e2) && e2 == e && final(self).cursor() == old(
                    self,
                ).cursor(),
            }),
    {
        proof {
            lemma_sdec_used(line_views(self.lines@), self.pos as nat);
        }
        let total = self.lines.len();
        match parse_resp(&self.lines, self.pos) {
            Ok((resp, used)) => {
                self.pos = self.pos + used;
                Ok(resp)
            },
            Err(e) => Err(e),
        }
    }
}

} // verus!
