//! The three messages of the protocol and their encoding.
//!
//! The parent sends one [`Config`] and then [`Request`]s; the mediator
//! answers with [`Response`]s.  A message is encoded field by field, in the
//! order in which the fields are declared.  The encoding has no version and
//! no tag: which message a frame holds follows from its place in the stream.
//!
//! For each message the module gives the encoding as a function of the
//! message's view, the executable encoder and decoder, and the proofs that
//! tie them together.  Each message can be read off the front of an input,
//! with what follows handed back or left alone, and [`decode_all`] reads an
//! input that is to hold one message and nothing else.
use crate::frame::le_bytes;
use crate::scale::bytes_fit;
use crate::scale::bytes_form;
use crate::scale::lemma_bytes_unambiguous;
use crate::scale::lemma_fixed_unambiguous;
use crate::scale::lemma_optional_unambiguous;
use crate::scale::lemma_sequence_unambiguous;
use crate::scale::lemma_texts_unambiguous;
use crate::scale::optional_fits;
use crate::scale::optional_form;
use crate::scale::put_bytes;
use crate::scale::put_optional;
use crate::scale::put_sequence;
use crate::scale::put_texts;
use crate::scale::put_u32;
use crate::scale::sequence_fits;
use crate::scale::sequence_form;
use crate::scale::take_bytes;
use crate::scale::take_optional;
use crate::scale::take_sequence;
use crate::scale::take_texts;
use crate::scale::take_u32;
use crate::scale::texts_fit;
use crate::scale::texts_form;
use crate::scale::utf8_items;
use vstd::prelude::*;

verus! {

/// Why a message could not be read: the input does not begin with the
/// encoding of any message of the kind asked for, or it holds more than the
/// one message that it was to hold.
#[derive(Debug, Clone, Copy, PartialEq, Eq, Structural)]
pub enum DecodeError {
    /// The bytes are cut short or break the format.
    Malformed,
}

/// What the three messages have in common: an encoding, an encoder and a
/// strict decoder that undo one another.
///
/// [`Message::decode`] reads a message off the front of its input.  Where
/// the input is to hold one message and nothing else, as the payload of a
/// frame does, [`decode_all`] is the decoder to use.
pub trait Message: View + Sized {
    /// Whether a message can be written: each of its lengths fits in 32
    /// bits.
    spec fn encodable(message: Self::V) -> bool;

    /// The encoding of a message.
    spec fn encoding(message: Self::V) -> Seq<u8>;

    /// The message that `input` begins with, if there is one.
    spec fn parse(input: Seq<u8>) -> Option<Self::V>;

    /// Whether the message can be written.
    fn is_encodable(&self) -> (b: bool)
        ensures
            b == Self::encodable(self@),
    ;

    /// The bytes of the message.
    fn encode(&self) -> (bytes: Vec<u8>)
        requires
            Self::encodable(self@),
        ensures
            bytes@ == Self::encoding(self@),
    ;

    /// Reads the message at the front of `input`.
    ///
    /// The call succeeds exactly when `input` begins with the encoding of a
    /// message, and then returns that message.  What follows the message is
    /// not looked at.
    fn decode(input: &[u8]) -> (r: Result<Self, DecodeError>)
        ensures
            match r {
                Ok(message) => Self::parse(input@) == Some(message@),
                Err(e) => Self::parse(input@) is None && e == DecodeError::Malformed,
            },
    ;

    /// Reads the message at the front of `input` and hands back what
    /// follows it.
    ///
    /// The call succeeds exactly when `input` begins with the encoding of a
    /// message; the input is then that encoding followed by the rest.
    fn decode_front<'a>(input: &'a [u8]) -> (r: Result<(Self, &'a [u8]), DecodeError>)
        ensures
            match r {
                Ok((message, rest)) => {
                    &&& Self::parse(input@) == Some(message@)
                    &&& input@ == Self::encoding(message@) + rest@
                },
                Err(e) => Self::parse(input@) is None && e == DecodeError::Malformed,
            },
    ;

    /// Reading undoes writing: an encoding, followed by anything, reads back
    /// as the message that was written.
    proof fn lemma_parse_of_encoding(message: Self::V, rest: Seq<u8>)
        requires
            Self::encodable(message),
        ensures
            Self::parse(Self::encoding(message) + rest) == Some(message),
    ;

    /// Writing undoes reading: what was read from an input is encodable, and
    /// the input begins with its encoding.
    proof fn lemma_encoding_of_parse(input: Seq<u8>)
        requires
            Self::parse(input) is Some,
        ensures
            Self::encodable(Self::parse(input)->0),
            Self::encoding(Self::parse(input)->0).is_prefix_of(input),
    ;
}

/// The message that `input` is the encoding of, if there is one: the
/// message that it begins with, where nothing follows that message.
pub open spec fn parse_all<T: Message>(input: Seq<u8>) -> Option<T::V> {
    match T::parse(input) {
        Some(message) if T::encoding(message) == input => Some(message),
        _ => None,
    }
}

/// An input is read as a whole exactly as the message whose encoding it
/// is.
pub proof fn lemma_parse_all_is_exact<T: Message>(input: Seq<u8>, message: T::V)
    ensures
        parse_all::<T>(input) == Some(message) <==> T::encodable(message) && T::encoding(message)
            == input,
{
    if parse_all::<T>(input) == Some(message) {
        T::lemma_encoding_of_parse(input);
    }
    if T::encodable(message) && T::encoding(message) == input {
        T::lemma_parse_of_encoding(message, Seq::empty());
        assert(input + Seq::<u8>::empty() =~= input);
    }
}

/// Reads the message that `input` holds.
///
/// The call succeeds exactly when `input` is the encoding of a message,
/// from its first byte to its last, and then returns that message.  An
/// input that is cut short, that breaks the format, or that goes on after
/// the message is refused.
pub fn decode_all<T: Message>(input: &[u8]) -> (r: Result<T, DecodeError>)
    ensures
        match r {
            Ok(message) => parse_all::<T>(input@) == Some(message@),
            Err(e) => parse_all::<T>(input@) is None && e == DecodeError::Malformed,
        },
{
    match T::decode_front(input) {
        Ok((message, rest)) => {
            if rest.len() == 0 {
                assert(input@ =~= T::encoding(message@));
                Ok(message)
            } else {
                assert(T::encoding(message@).len() < input@.len());
                Err(DecodeError::Malformed)
            }
        },
        Err(e) => Err(e),
    }
}

/// A lookup or a store, as the parent asks for it.
///
/// A request with a value stores that value under the key; a request
/// without one looks the key up.
#[derive(Debug, Clone, PartialEq, Eq)]
pub struct Request {
    pub key: Vec<u8>,
    pub put_value: Option<Vec<u8>>,
}

/// A request as a mathematical value.
pub struct RequestView {
    pub key: Seq<u8>,
    pub put_value: Option<Seq<u8>>,
}

impl View for Request {
    type V = RequestView;

    open spec fn view(&self) -> RequestView {
        RequestView {
            key: self.key@,
            put_value: match self.put_value {
                Some(value) => Some(value@),
                None => None,
            },
        }
    }
}

impl RequestView {
    /// Whether the request can be written: each length fits in 32 bits.
    pub open spec fn encodable(self) -> bool {
        bytes_fit(self.key) && optional_fits(self.put_value)
    }

    /// The encoding: the key, then the optional value.
    pub open spec fn encoding(self) -> Seq<u8>
        recommends
            self.encodable(),
    {
        bytes_form(self.key) + optional_form(self.put_value)
    }

    /// Whether `input` begins with this request's encoding.
    pub open spec fn begins(self, input: Seq<u8>) -> bool {
        self.encodable() && self.encoding().is_prefix_of(input)
    }

    /// The request that `input` begins with, if there is one.
    pub open spec fn parse(input: Seq<u8>) -> Option<RequestView> {
        if exists|request: RequestView| request.begins(input) {
            Some(choose|request: RequestView| request.begins(input))
        } else {
            None
        }
    }

    /// An input begins with the encoding of at most one request.
    pub proof fn lemma_begins_unique(self, other: RequestView, input: Seq<u8>)
        requires
            self.begins(input),
            other.begins(input),
        ensures
            self == other,
    {
        let after_self = input.skip(self.encoding().len() as int);
        let after_other = input.skip(other.encoding().len() as int);
        assert(input =~= self.encoding() + after_self);
        assert(input =~= other.encoding() + after_other);
        assert(self.encoding() + after_self =~= bytes_form(self.key) + (optional_form(
            self.put_value,
        ) + after_self));
        assert(other.encoding() + after_other =~= bytes_form(other.key) + (optional_form(
            other.put_value,
        ) + after_other));
        lemma_bytes_unambiguous(
            self.key,
            other.key,
            optional_form(self.put_value) + after_self,
            optional_form(other.put_value) + after_other,
        );
        lemma_optional_unambiguous(self.put_value, other.put_value, after_self, after_other);
    }

    /// Reading undoes writing: an encoding, followed by anything, reads back
    /// as the request that was written.
    pub proof fn lemma_parse_of_encoding(self, rest: Seq<u8>)
        requires
            self.encodable(),
        ensures
            RequestView::parse(self.encoding() + rest) == Some(self),
    {
        let input = self.encoding() + rest;
        assert(self.encoding() =~= input.subrange(0, self.encoding().len() as int));
        assert(self.begins(input));
        let found = choose|request: RequestView| request.begins(input);
        found.lemma_begins_unique(self, input);
    }

    /// Writing undoes reading: what was read from an input is encodable, and
    /// the input begins with its encoding.
    pub proof fn lemma_encoding_of_parse(input: Seq<u8>)
        requires
            RequestView::parse(input) is Some,
        ensures
            RequestView::parse(input)->0.begins(input),
    {
    }
}

impl Request {
    /// Whether the request can be written.
    pub fn is_encodable(&self) -> (b: bool)
        ensures
            b == self@.encodable(),
    {
        let key_fits = self.key.len() <= 0xffff_ffff;
        let value_fits = match &self.put_value {
            Some(value) => value.len() <= 0xffff_ffff,
            None => true,
        };
        key_fits && value_fits
    }

    /// The bytes of the request.
    pub fn encode(&self) -> (bytes: Vec<u8>)
        requires
            self@.encodable(),
        ensures
            bytes@ == self@.encoding(),
    {
        let mut bytes: Vec<u8> = Vec::new();
        put_bytes(&mut bytes, self.key.as_slice());
        put_optional(&mut bytes, &self.put_value);
        assert(bytes@ =~= self@.encoding());
        bytes
    }

    /// Reads the request at the front of `input`.
    ///
    /// The call succeeds exactly when `input` begins with the encoding of a
    /// request, and then returns that request.  What follows it is not looked
    /// at.
    pub fn decode(input: &[u8]) -> (r: Result<Request, DecodeError>)
        ensures
            match r {
                Ok(request) => RequestView::parse(input@) == Some(request@),
                Err(e) => RequestView::parse(input@) is None && e == DecodeError::Malformed,
            },
    {
        match Request::decode_front(input) {
            Ok((request, _)) => Ok(request),
            Err(e) => Err(e),
        }
    }

    /// Reads the request at the front of `input` and hands back what follows
    /// it.
    ///
    /// The call succeeds exactly when `input` begins with the encoding of a
    /// request; the input is then that encoding followed by the rest.
    pub fn decode_front<'a>(input: &'a [u8]) -> (r: Result<(Request, &'a [u8]), DecodeError>)
        ensures
            match r {
                Ok((request, rest)) => {
                    &&& RequestView::parse(input@) == Some(request@)
                    &&& input@ == request@.encoding() + rest@
                },
                Err(e) => RequestView::parse(input@) is None && e == DecodeError::Malformed,
            },
    {
        let (key, after_key) = match take_bytes(input) {
            Some(found) => found,
            None => {
                assert forall|cand: RequestView| !cand.begins(input@) by {
                    if cand.begins(input@) {
                        let rest = input@.skip(cand.encoding().len() as int);
                        assert(input@ =~= cand.encoding() + rest);
                        assert(input@ =~= bytes_form(cand.key) + (optional_form(cand.put_value)
                            + rest));
                    }
                }
                return Err(DecodeError::Malformed);
            },
        };
        let (put_value, after_value) = match take_optional(after_key) {
            Some(found) => found,
            None => {
                assert forall|cand: RequestView| !cand.begins(input@) by {
                    if cand.begins(input@) {
                        let rest = input@.skip(cand.encoding().len() as int);
                        let tail = optional_form(cand.put_value) + rest;
                        assert(input@ =~= cand.encoding() + rest);
                        assert(input@ =~= bytes_form(cand.key) + tail);
                        lemma_bytes_unambiguous(key@, cand.key, after_key@, tail);
                    }
                }
                return Err(DecodeError::Malformed);
            },
        };
        let request = Request { key, put_value };
        proof {
            assert(input@ =~= request@.encoding() + after_value@);
            request@.lemma_parse_of_encoding(after_value@);
        }
        Ok((request, after_value))
    }
}

impl Message for Request {
    open spec fn encodable(message: RequestView) -> bool {
        message.encodable()
    }

    open spec fn encoding(message: RequestView) -> Seq<u8> {
        message.encoding()
    }

    open spec fn parse(input: Seq<u8>) -> Option<RequestView> {
        RequestView::parse(input)
    }

    proof fn lemma_parse_of_encoding(message: RequestView, rest: Seq<u8>) {
        message.lemma_parse_of_encoding(rest);
    }

    proof fn lemma_encoding_of_parse(input: Seq<u8>) {
        RequestView::lemma_encoding_of_parse(input);
    }

    fn is_encodable(&self) -> (b: bool) {
        Request::is_encodable(self)
    }

    fn encode(&self) -> (bytes: Vec<u8>) {
        Request::encode(self)
    }

    fn decode(input: &[u8]) -> (r: Result<Request, DecodeError>) {
        Request::decode(input)
    }

    fn decode_front<'a>(input: &'a [u8]) -> (r: Result<(Request, &'a [u8]), DecodeError>) {
        Request::decode_front(input)
    }
}

/// All the values found under a key.
///
/// The values are distinct.  A response is sent once per lookup, when the
/// lookup ends; a lookup that found nothing is answered with no values.
#[derive(Debug, Clone, PartialEq, Eq)]
pub struct Response {
    pub key: Vec<u8>,
    pub values: Vec<Vec<u8>>,
}

/// A response as a mathematical value.
pub struct ResponseView {
    pub key: Seq<u8>,
    pub values: Seq<Seq<u8>>,
}

impl View for Response {
    type V = ResponseView;

    open spec fn view(&self) -> ResponseView {
        ResponseView { key: self.key@, values: self.values.deep_view() }
    }
}

impl ResponseView {
    /// Whether the response can be written: each length fits in 32 bits.
    pub open spec fn encodable(self) -> bool {
        bytes_fit(self.key) && sequence_fits(self.values)
    }

    /// The encoding: the key, then the sequence of values.
    pub open spec fn encoding(self) -> Seq<u8>
        recommends
            self.encodable(),
    {
        bytes_form(self.key) + sequence_form(self.values)
    }

    /// Whether `input` begins with this response's encoding.
    pub open spec fn begins(self, input: Seq<u8>) -> bool {
        self.encodable() && self.encoding().is_prefix_of(input)
    }

    /// The response that `input` begins with, if there is one.
    pub open spec fn parse(input: Seq<u8>) -> Option<ResponseView> {
        if exists|response: ResponseView| response.begins(input) {
            Some(choose|response: ResponseView| response.begins(input))
        } else {
            None
        }
    }

    /// An input begins with the encoding of at most one response.
    pub proof fn lemma_begins_unique(self, other: ResponseView, input: Seq<u8>)
        requires
            self.begins(input),
            other.begins(input),
        ensures
            self == other,
    {
        let after_self = input.skip(self.encoding().len() as int);
        let after_other = input.skip(other.encoding().len() as int);
        assert(input =~= self.encoding() + after_self);
        assert(input =~= other.encoding() + after_other);
        assert(self.encoding() + after_self =~= bytes_form(self.key) + (sequence_form(self.values)
            + after_self));
        assert(other.encoding() + after_other =~= bytes_form(other.key) + (sequence_form(
            other.values,
        ) + after_other));
        lemma_bytes_unambiguous(
            self.key,
            other.key,
            sequence_form(self.values) + after_self,
            sequence_form(other.values) + after_other,
        );
        lemma_sequence_unambiguous(self.values, other.values, after_self, after_other);
    }

    /// Reading undoes writing: an encoding, followed by anything, reads back
    /// as the response that was written.
    pub proof fn lemma_parse_of_encoding(self, rest: Seq<u8>)
        requires
            self.encodable(),
        ensures
            ResponseView::parse(self.encoding() + rest) == Some(self),
    {
        let input = self.encoding() + rest;
        assert(self.encoding() =~= input.subrange(0, self.encoding().len() as int));
        assert(self.begins(input));
        let found = choose|response: ResponseView| response.begins(input);
        found.lemma_begins_unique(self, input);
    }

    /// Writing undoes reading: what was read from an input is encodable, and
    /// the input begins with its encoding.
    pub proof fn lemma_encoding_of_parse(input: Seq<u8>)
        requires
            ResponseView::parse(input) is Some,
        ensures
            ResponseView::parse(input)->0.begins(input),
    {
    }
}

impl Response {
    /// Whether the response can be written.
    pub fn is_encodable(&self) -> (b: bool)
        ensures
            b == self@.encodable(),
    {
        if self.key.len() > 0xffff_ffff || self.values.len() > 0xffff_ffff {
            return false;
        }
        let mut i: usize = 0;
        while i < self.values.len()
            invariant
                i <= self.values.len(),
                forall|j: int| 0 <= j < i ==> bytes_fit(#[trigger] self.values.deep_view()[j]),
            decreases self.values.len() - i,
        {
            assert(self.values.deep_view()[i as int] =~= self.values[i as int]@);
            if self.values[i].len() > 0xffff_ffff {
                return false;
            }
            i += 1;
        }
        true
    }

    /// The bytes of the response.
    pub fn encode(&self) -> (bytes: Vec<u8>)
        requires
            self@.encodable(),
        ensures
            bytes@ == self@.encoding(),
    {
        let mut bytes: Vec<u8> = Vec::new();
        put_bytes(&mut bytes, self.key.as_slice());
        put_sequence(&mut bytes, &self.values);
        assert(bytes@ =~= self@.encoding());
        bytes
    }

    /// Reads the response at the front of `input`.
    ///
    /// The call succeeds exactly when `input` begins with the encoding of a
    /// response, and then returns that response.  What follows it is not looked
    /// at.
    pub fn decode(input: &[u8]) -> (r: Result<Response, DecodeError>)
        ensures
            match r {
                Ok(response) => ResponseView::parse(input@) == Some(response@),
                Err(e) => ResponseView::parse(input@) is None && e == DecodeError::Malformed,
            },
    {
        match Response::decode_front(input) {
            Ok((response, _)) => Ok(response),
            Err(e) => Err(e),
        }
    }

    /// Reads the response at the front of `input` and hands back what follows
    /// it.
    ///
    /// The call succeeds exactly when `input` begins with the encoding of a
    /// response; the input is then that encoding followed by the rest.
    pub fn decode_front<'a>(input: &'a [u8]) -> (r: Result<(Response, &'a [u8]), DecodeError>)
        ensures
            match r {
                Ok((response, rest)) => {
                    &&& ResponseView::parse(input@) == Some(response@)
                    &&& input@ == response@.encoding() + rest@
                },
                Err(e) => ResponseView::parse(input@) is None && e == DecodeError::Malformed,
            },
    {
        let (key, after_key) = match take_bytes(input) {
            Some(found) => found,
            None => {
                assert forall|cand: ResponseView| !cand.begins(input@) by {
                    if cand.begins(input@) {
                        let rest = input@.skip(cand.encoding().len() as int);
                        assert(input@ =~= cand.encoding() + rest);
                        assert(input@ =~= bytes_form(cand.key) + (sequence_form(cand.values)
                            + rest));
                    }
                }
                return Err(DecodeError::Malformed);
            },
        };
        let (values, after_values) = match take_sequence(after_key) {
            Some(found) => found,
            None => {
                assert forall|cand: ResponseView| !cand.begins(input@) by {
                    if cand.begins(input@) {
                        let rest = input@.skip(cand.encoding().len() as int);
                        let tail = sequence_form(cand.values) + rest;
                        assert(input@ =~= cand.encoding() + rest);
                        assert(input@ =~= bytes_form(cand.key) + tail);
                        lemma_bytes_unambiguous(key@, cand.key, after_key@, tail);
                    }
                }
                return Err(DecodeError::Malformed);
            },
        };
        let response = Response { key, values };
        proof {
            assert(input@ =~= response@.encoding() + after_values@);
            response@.lemma_parse_of_encoding(after_values@);
        }
        Ok((response, after_values))
    }
}

impl Message for Response {
    open spec fn encodable(message: ResponseView) -> bool {
        message.encodable()
    }

    open spec fn encoding(message: ResponseView) -> Seq<u8> {
        message.encoding()
    }

    open spec fn parse(input: Seq<u8>) -> Option<ResponseView> {
        ResponseView::parse(input)
    }

    proof fn lemma_parse_of_encoding(message: ResponseView, rest: Seq<u8>) {
        message.lemma_parse_of_encoding(rest);
    }

    proof fn lemma_encoding_of_parse(input: Seq<u8>) {
        ResponseView::lemma_encoding_of_parse(input);
    }

    fn is_encodable(&self) -> (b: bool) {
        Response::is_encodable(self)
    }

    fn encode(&self) -> (bytes: Vec<u8>) {
        Response::encode(self)
    }

    fn decode(input: &[u8]) -> (r: Result<Response, DecodeError>) {
        Response::decode(input)
    }

    fn decode_front<'a>(input: &'a [u8]) -> (r: Result<(Response, &'a [u8]), DecodeError>) {
        Response::decode_front(input)
    }
}

/// What the parent sets once, in the first frame.
///
/// The mediator itself reads only `quorum`; the other fields are for the
/// table: the protocol names it speaks, the peers it starts from, and the
/// number of seconds after which it drops an idle connection.
#[derive(Debug, Clone, PartialEq, Eq)]
pub struct Config {
    pub protocol_ids: Vec<String>,
    pub bootstrap_addresses: Vec<String>,
    pub quorum: u32,
    pub idle_timeout_seconds: u32,
}

/// A configuration as a mathematical value.
pub struct ConfigView {
    pub protocol_ids: Seq<Seq<char>>,
    pub bootstrap_addresses: Seq<Seq<char>>,
    pub quorum: u32,
    pub idle_timeout_seconds: u32,
}

impl View for Config {
    type V = ConfigView;

    open spec fn view(&self) -> ConfigView {
        ConfigView {
            protocol_ids: self.protocol_ids.deep_view(),
            bootstrap_addresses: self.bootstrap_addresses.deep_view(),
            quorum: self.quorum,
            idle_timeout_seconds: self.idle_timeout_seconds,
        }
    }
}

impl ConfigView {
    /// Whether the configuration can be written: each length fits in 32
    /// bits, that of a text being the number of its UTF-8 bytes.
    pub open spec fn encodable(self) -> bool {
        texts_fit(self.protocol_ids) && texts_fit(self.bootstrap_addresses)
    }

    /// The encoding: the protocol names, the bootstrap addresses, the quorum
    /// and the idle timeout, the two numbers in four bytes each.
    pub open spec fn encoding(self) -> Seq<u8>
        recommends
            self.encodable(),
    {
        texts_form(self.protocol_ids) + texts_form(self.bootstrap_addresses) + le_bytes(
            self.quorum,
        ) + le_bytes(self.idle_timeout_seconds)
    }

    /// Whether `input` begins with this configuration's encoding.
    pub open spec fn begins(self, input: Seq<u8>) -> bool {
        self.encodable() && self.encoding().is_prefix_of(input)
    }

    /// The configuration that `input` begins with, if there is one.
    pub open spec fn parse(input: Seq<u8>) -> Option<ConfigView> {
        if exists|config: ConfigView| config.begins(input) {
            Some(choose|config: ConfigView| config.begins(input))
        } else {
            None
        }
    }

    /// The encoding followed by `rest`, bracketed from the right: each field
    /// is followed by all that comes after it.
    pub open spec fn nested(self, rest: Seq<u8>) -> Seq<u8> {
        texts_form(self.protocol_ids) + (texts_form(self.bootstrap_addresses) + (le_bytes(
            self.quorum,
        ) + (le_bytes(self.idle_timeout_seconds) + rest)))
    }

    /// An input that begins with the encoding is the encoding's fields, each
    /// followed by all that comes after it.
    pub proof fn lemma_begins_nested(self, input: Seq<u8>)
        requires
            self.begins(input),
        ensures
            input == self.nested(input.skip(self.encoding().len() as int)),
    {
        let rest = input.skip(self.encoding().len() as int);
        assert(input =~= self.encoding() + rest);
        assert(self.encoding() + rest =~= self.nested(rest));
    }

    /// An input begins with the encoding of at most one configuration.
    pub proof fn lemma_begins_unique(self, other: ConfigView, input: Seq<u8>)
        requires
            self.begins(input),
            other.begins(input),
        ensures
            self == other,
    {
        let after_self = input.skip(self.encoding().len() as int);
        let after_other = input.skip(other.encoding().len() as int);
        self.lemma_begins_nested(input);
        other.lemma_begins_nested(input);
        let idle_self = le_bytes(self.idle_timeout_seconds) + after_self;
        let idle_other = le_bytes(other.idle_timeout_seconds) + after_other;
        let quorum_self = le_bytes(self.quorum) + idle_self;
        let quorum_other = le_bytes(other.quorum) + idle_other;
        lemma_texts_unambiguous(
            self.protocol_ids,
            other.protocol_ids,
            texts_form(self.bootstrap_addresses) + quorum_self,
            texts_form(other.bootstrap_addresses) + quorum_other,
        );
        lemma_texts_unambiguous(
            self.bootstrap_addresses,
            other.bootstrap_addresses,
            quorum_self,
            quorum_other,
        );
        lemma_fixed_unambiguous(self.quorum, other.quorum, idle_self, idle_other);
        lemma_fixed_unambiguous(
            self.idle_timeout_seconds,
            other.idle_timeout_seconds,
            after_self,
            after_other,
        );
    }

    /// Reading undoes writing: an encoding, followed by anything, reads back
    /// as the configuration that was written.
    pub proof fn lemma_parse_of_encoding(self, rest: Seq<u8>)
        requires
            self.encodable(),
        ensures
            ConfigView::parse(self.encoding() + rest) == Some(self),
    {
        let input = self.encoding() + rest;
        assert(self.encoding() =~= input.subrange(0, self.encoding().len() as int));
        assert(self.begins(input));
        let found = choose|config: ConfigView| config.begins(input);
        found.lemma_begins_unique(self, input);
    }

    /// Writing undoes reading: what was read from an input is encodable, and
    /// the input begins with its encoding.
    pub proof fn lemma_encoding_of_parse(input: Seq<u8>)
        requires
            ConfigView::parse(input) is Some,
        ensures
            ConfigView::parse(input)->0.begins(input),
    {
    }
}

/// Whether a sequence of texts can be written.
fn texts_are_encodable(texts: &Vec<String>) -> (b: bool)
    ensures
        b == texts_fit(texts.deep_view()),
{
    if texts.len() > 0xffff_ffff {
        return false;
    }
    let ghost items = utf8_items(texts.deep_view());
    let mut i: usize = 0;
    while i < texts.len()
        invariant
            i <= texts.len(),
            items == utf8_items(texts.deep_view()),
            forall|j: int| 0 <= j < i ==> bytes_fit(#[trigger] items[j]),
        decreases texts.len() - i,
    {
        assert(items[i as int] == vstd::utf8::encode_utf8(texts[i as int]@));
        if texts[i].as_str().as_bytes().len() > 0xffff_ffff {
            return false;
        }
        i += 1;
    }
    true
}

impl Config {
    /// Whether the configuration can be written.
    pub fn is_encodable(&self) -> (b: bool)
        ensures
            b == self@.encodable(),
    {
        texts_are_encodable(&self.protocol_ids) && texts_are_encodable(&self.bootstrap_addresses)
    }

    /// The bytes of the configuration.
    pub fn encode(&self) -> (bytes: Vec<u8>)
        requires
            self@.encodable(),
        ensures
            bytes@ == self@.encoding(),
    {
        let mut bytes: Vec<u8> = Vec::new();
        put_texts(&mut bytes, &self.protocol_ids);
        put_texts(&mut bytes, &self.bootstrap_addresses);
        put_u32(&mut bytes, self.quorum);
        put_u32(&mut bytes, self.idle_timeout_seconds);
        assert(bytes@ =~= self@.encoding());
        bytes
    }

    /// Reads the configuration at the front of `input`.
    ///
    /// The call succeeds exactly when `input` begins with the encoding of a
    /// configuration, and then returns that configuration.  What follows it is not looked
    /// at.
    pub fn decode(input: &[u8]) -> (r: Result<Config, DecodeError>)
        ensures
            match r {
                Ok(config) => ConfigView::parse(input@) == Some(config@),
                Err(e) => ConfigView::parse(input@) is None && e == DecodeError::Malformed,
            },
    {
        match Config::decode_front(input) {
            Ok((config, _)) => Ok(config),
            Err(e) => Err(e),
        }
    }

    /// Reads the configuration at the front of `input` and hands back what follows
    /// it.
    ///
    /// The call succeeds exactly when `input` begins with the encoding of a
    /// configuration; the input is then that encoding followed by the rest.
    pub fn decode_front<'a>(input: &'a [u8]) -> (r: Result<(Config, &'a [u8]), DecodeError>)
        ensures
            match r {
                Ok((config, rest)) => {
                    &&& ConfigView::parse(input@) == Some(config@)
                    &&& input@ == config@.encoding() + rest@
                },
                Err(e) => ConfigView::parse(input@) is None && e == DecodeError::Malformed,
            },
    {
        let (protocol_ids, after_ids) = match take_texts(input) {
            Some(found) => found,
            None => {
                assert forall|cand: ConfigView| !cand.begins(input@) by {
                    if cand.begins(input@) {
                        cand.lemma_begins_nested(input@);
                    }
                }
                return Err(DecodeError::Malformed);
            },
        };
        let (bootstrap_addresses, after_addresses) = match take_texts(after_ids) {
            Some(found) => found,
            None => {
                assert forall|cand: ConfigView| !cand.begins(input@) by {
                    if cand.begins(input@) {
                        cand.lemma_begins_nested(input@);
                        let rest = input@.skip(cand.encoding().len() as int);
                        let tail = le_bytes(cand.quorum) + (le_bytes(cand.idle_timeout_seconds)
                            + rest);
                        lemma_texts_unambiguous(
                            protocol_ids.deep_view(),
                            cand.protocol_ids,
                            after_ids@,
                            texts_form(cand.bootstrap_addresses) + tail,
                        );
                    }
                }
                return Err(DecodeError::Malformed);
            },
        };
        let (quorum, after_quorum) = match take_u32(after_addresses) {
            Some(found) => found,
            None => {
                assert forall|cand: ConfigView| !cand.begins(input@) by {
                    if cand.begins(input@) {
                        cand.lemma_begins_nested(input@);
                        let rest = input@.skip(cand.encoding().len() as int);
                        let tail = le_bytes(cand.quorum) + (le_bytes(cand.idle_timeout_seconds)
                            + rest);
                        lemma_texts_unambiguous(
                            protocol_ids.deep_view(),
                            cand.protocol_ids,
                            after_ids@,
                            texts_form(cand.bootstrap_addresses) + tail,
                        );
                        lemma_texts_unambiguous(
                            bootstrap_addresses.deep_view(),
                            cand.bootstrap_addresses,
                            after_addresses@,
                            tail,
                        );
                        assert(tail.len() >= 4);
                    }
                }
                return Err(DecodeError::Malformed);
            },
        };
        let (idle_timeout_seconds, after_idle) = match take_u32(after_quorum) {
            Some(found) => found,
            None => {
                assert forall|cand: ConfigView| !cand.begins(input@) by {
                    if cand.begins(input@) {
                        cand.lemma_begins_nested(input@);
                        let rest = input@.skip(cand.encoding().len() as int);
                        let last = le_bytes(cand.idle_timeout_seconds) + rest;
                        let tail = le_bytes(cand.quorum) + last;
                        lemma_texts_unambiguous(
                            protocol_ids.deep_view(),
                            cand.protocol_ids,
                            after_ids@,
                            texts_form(cand.bootstrap_addresses) + tail,
                        );
                        lemma_texts_unambiguous(
                            bootstrap_addresses.deep_view(),
                            cand.bootstrap_addresses,
                            after_addresses@,
                            tail,
                        );
                        lemma_fixed_unambiguous(quorum, cand.quorum, after_quorum@, last);
                        assert(last.len() >= 4);
                    }
                }
                return Err(DecodeError::Malformed);
            },
        };
        let config = Config { protocol_ids, bootstrap_addresses, quorum, idle_timeout_seconds };
        proof {
            assert(input@ =~= config@.encoding() + after_idle@);
            config@.lemma_parse_of_encoding(after_idle@);
        }
        Ok((config, after_idle))
    }
}

impl Message for Config {
    open spec fn encodable(message: ConfigView) -> bool {
        message.encodable()
    }

    open spec fn encoding(message: ConfigView) -> Seq<u8> {
        message.encoding()
    }

    open spec fn parse(input: Seq<u8>) -> Option<ConfigView> {
        ConfigView::parse(input)
    }

    proof fn lemma_parse_of_encoding(message: ConfigView, rest: Seq<u8>) {
        message.lemma_parse_of_encoding(rest);
    }

    proof fn lemma_encoding_of_parse(input: Seq<u8>) {
        ConfigView::lemma_encoding_of_parse(input);
    }

    fn is_encodable(&self) -> (b: bool) {
        Config::is_encodable(self)
    }

    fn encode(&self) -> (bytes: Vec<u8>) {
        Config::encode(self)
    }

    fn decode(input: &[u8]) -> (r: Result<Config, DecodeError>) {
        Config::decode(input)
    }

    fn decode_front<'a>(input: &'a [u8]) -> (r: Result<(Config, &'a [u8]), DecodeError>) {
        Config::decode_front(input)
    }
}

} // verus!
