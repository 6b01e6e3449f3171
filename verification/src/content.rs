//! What a message contains: its literal data, under signatures and compression.
use crate::compression::{
    compress_bytes, compressed, deflate_decoded, deflate_encoded, zlib_decoded, zlib_encoded,
};
use crate::errors::Error;
use crate::grammar::message_of;
use crate::message::{Message, MessageModel};
use crate::packet::{CompressedData, CompressedModel, LiteralData, LiteralModel};
use crate::round_trip::law_message_round_trip;
use crate::types::{CompressionAlgorithm, DataMode, Version};
use vstd::prelude::*;
use vstd::slice::slice_to_vec;

verus! {

impl MessageModel {
    /// What compressing the message gives.
    pub open spec fn compressed(self, alg: CompressionAlgorithm) -> Result<MessageModel, Error> {
        match alg {
            CompressionAlgorithm::BZip2 => Err(Error::UnimplementedBZip2),
            CompressionAlgorithm::Private10 => Err(Error::UnsupportedPrivate10),
            _ => match self.wire() {
                Ok(bytes) => match compressed(alg, bytes) {
                    Ok(data) => Ok(
                        MessageModel::Compressed(
                            CompressedModel {
                                packet_version: Version::New,
                                algorithm: alg,
                                data,
                            },
                        ),
                    ),
                    Err(e) => Err(e),
                },
                Err(e) => Err(e),
            },
        }
    }

    /// What one layer of compression hides; the message itself where there is none.
    pub open spec fn decompressed(self) -> Result<MessageModel, Error> {
        match self {
            MessageModel::Compressed(data) => match data.content() {
                Ok(bytes) => message_of(bytes),
                Err(e) => Err(e),
            },
            _ => Ok(self),
        }
    }

    /// Whether the message begins with at most `n` layers of compression, one inside the
    /// other, up to one that cannot be opened.
    pub open spec fn outer_layers_within(self, n: nat) -> bool
        decreases n,
    {
        self is Compressed ==> match self.decompressed() {
            Ok(m) => n > 0 && m.outer_layers_within((n - 1) as nat),
            Err(_) => true,
        }
    }

    /// Whether the layers of compression that the message begins with come to an end.
    /// Compressed data can be made that decompresses to itself, for which they do not.
    pub open spec fn outer_layers_end(self) -> bool {
        exists|n: nat| self.outer_layers_within(n)
    }

    /// What is left when at most `n` outer layers of compression have been opened.
    pub open spec fn opened(self, n: nat) -> Result<MessageModel, Error>
        decreases n,
    {
        if self is Compressed {
            match self.decompressed() {
                Ok(m) => if n > 0 {
                    m.opened((n - 1) as nat)
                } else {
                    Ok(self)
                },
                Err(e) => Err(e),
            }
        } else {
            Ok(self)
        }
    }

    /// What the layers of compression that the message begins with hide, where they come
    /// to an end.
    pub open spec fn innermost(self) -> Result<MessageModel, Error> {
        self.opened(choose|n: nat| self.outer_layers_within(n))
    }

    /// The literal data of the message, under any signatures.
    pub open spec fn literal(self) -> Option<LiteralModel>
        decreases self,
    {
        match self {
            MessageModel::Literal(data) => Some(data),
            MessageModel::Signed { message: Some(m), .. } => m.literal(),
            _ => None,
        }
    }

    /// The octets of the literal data, under any signatures.
    pub open spec fn literal_octets(self) -> Option<Seq<u8>> {
        match self.literal() {
            Some(l) => Some(l.data),
            None => None,
        }
    }

    /// What lies directly under the message's own layer: the message that is signed, or
    /// what the compressed data holds; nothing where the message has no such layer.
    pub open spec fn inside(self) -> Option<Result<MessageModel, Error>> {
        match self {
            MessageModel::Signed { message: Some(m), .. } => Some(Ok(*m)),
            MessageModel::Compressed(_) => Some(self.decompressed()),
            _ => None,
        }
    }

    /// Whether at most `n` layers of compression lie in the message, under signatures or
    /// not, up to one that cannot be opened.
    pub open spec fn layers_within(self, n: nat) -> bool
        decreases n, self,
    {
        match self {
            MessageModel::Signed { message: Some(m), .. } => m.layers_within(n),
            MessageModel::Compressed(_) => match self.decompressed() {
                Ok(m) => n > 0 && m.layers_within((n - 1) as nat),
                Err(_) => true,
            },
            _ => true,
        }
    }

    /// Whether the layers of compression in the message come to an end.
    pub open spec fn layers_end(self) -> bool {
        exists|n: nat| self.layers_within(n)
    }

    /// The content of the message, as far as it lies under at most `n` layers of
    /// compression.
    pub open spec fn content_within(self, n: nat) -> Result<Option<Seq<u8>>, Error>
        decreases n, self,
    {
        match self {
            MessageModel::Literal(data) => Ok(Some(data.data)),
            MessageModel::Signed { message: Some(m), .. } => m.content_within(n),
            MessageModel::Signed { message: None, .. } => Ok(None),
            MessageModel::Compressed(_) => match self.decompressed() {
                Ok(m) => if n > 0 {
                    m.content_within((n - 1) as nat)
                } else {
                    Ok(None)
                },
                Err(e) => Err(e),
            },
            MessageModel::Encrypted { .. } => Ok(None),
        }
    }

    /// The content of the message: the octets of its literal data, under signatures and
    /// compression in any nesting. There is none where the message is encrypted, or is a
    /// signature that stands alone.
    pub open spec fn content(self) -> Result<Option<Seq<u8>>, Error> {
        self.content_within(choose|n: nat| self.layers_within(n))
    }

    /// What lies `k` layers inside the message, each a signature or compression.
    pub open spec fn at_depth(self, k: nat) -> Option<MessageModel>
        decreases k,
    {
        if k == 0 {
            Some(self)
        } else {
            match self.inside() {
                Some(Ok(m)) => m.at_depth((k - 1) as nat),
                _ => None,
            }
        }
    }

    /// Whether the message holds, at some depth, compressed data that cannot be opened.
    pub open spec fn has_broken_layer(self) -> bool {
        exists|k: nat|
            (#[trigger] self.at_depth(k)) matches Some(c) && c is Compressed && c.decompressed()
                is Err
    }
}

/// How many layers are opened does not matter, once it is enough.
pub proof fn lemma_enough_layers(m: MessageModel, n: nat, k: nat)
    requires
        m.outer_layers_within(n),
        m.outer_layers_within(k),
    ensures
        m.opened(n) == m.opened(k),
    decreases n,
{
    if m is Compressed {
        if let Ok(inner) = m.decompressed() {
            lemma_enough_layers(inner, (n - 1) as nat, (k - 1) as nat);
        }
    }
}

/// Where at most `n` layers lie around the innermost part, opening `n` gives it.
pub proof fn lemma_innermost(m: MessageModel, n: nat)
    requires
        m.outer_layers_within(n),
    ensures
        m.outer_layers_end(),
        m.innermost() == m.opened(n),
        m.innermost() matches Ok(x) ==> !(x is Compressed),
{
    lemma_enough_layers(m, n, choose|k: nat| m.outer_layers_within(k));
    lemma_opened(m, n);
}

proof fn lemma_opened(m: MessageModel, n: nat)
    requires
        m.outer_layers_within(n),
    ensures
        m.opened(n) matches Ok(x) ==> !(x is Compressed),
    decreases n,
{
    if m is Compressed {
        if let Ok(inner) = m.decompressed() {
            lemma_opened(inner, (n - 1) as nat);
        }
    }
}

/// Opening one layer of compression first changes nothing about what all of them hide; a
/// layer that cannot be opened gives its error. Of a message that is not compressed there
/// is no layer to open.
pub proof fn law_innermost_of_layer(m: MessageModel)
    requires
        m.decompressed() matches Ok(inner) ==> inner.outer_layers_end(),
    ensures
        m.outer_layers_end(),
        m.innermost() == match m.decompressed() {
            Ok(inner) => inner.innermost(),
            Err(e) => Err(e),
        },
{
    if m is Compressed {
        match m.decompressed() {
            Ok(inner) => {
                let n = choose|n: nat| inner.outer_layers_within(n);
                assert(m.outer_layers_within(n + 1));
                lemma_innermost(m, n + 1);
            },
            Err(_) => {
                assert(m.outer_layers_within(0));
                lemma_innermost(m, 0);
            },
        }
    }
}

/// A message that is not compressed is its own innermost part.
pub proof fn law_uncompressed_is_innermost(m: MessageModel)
    requires
        !(m is Compressed),
    ensures
        m.outer_layers_end(),
        m.innermost() == Ok::<MessageModel, Error>(m),
{
    assert(m.outer_layers_within(0));
    lemma_innermost(m, 0);
}

/// How many layers are opened for the content does not matter, once it is enough.
proof fn lemma_enough_for_content(m: MessageModel, n: nat, k: nat)
    requires
        m.layers_within(n),
        m.layers_within(k),
    ensures
        m.content_within(n) == m.content_within(k),
    decreases n, m,
{
    match m {
        MessageModel::Signed { message: Some(inner), .. } => {
            lemma_enough_for_content(*inner, n, k);
        },
        MessageModel::Compressed(_) => {
            if let Ok(inner) = m.decompressed() {
                lemma_enough_for_content(inner, (n - 1) as nat, (k - 1) as nat);
            }
        },
        _ => {},
    }
}

/// Where at most `n` layers lie in the message, opening `n` gives its content.
pub proof fn lemma_content(m: MessageModel, n: nat)
    requires
        m.layers_within(n),
    ensures
        m.layers_end(),
        m.content() == m.content_within(n),
{
    lemma_enough_for_content(m, n, choose|k: nat| m.layers_within(k));
}

/// Signatures and compression are transparent: the content of a signed message is that
/// of the message that is signed, and the content of a compressed one that of what it
/// holds, or the error of opening it.
pub proof fn law_content_is_what_is_inside(m: MessageModel)
    requires
        m.inside() matches Some(Ok(inner)) ==> inner.layers_end(),
    ensures
        m.layers_end(),
        m.content() == match m.inside() {
            Some(Ok(inner)) => inner.content(),
            Some(Err(e)) => Err(e),
            None => Ok(m.literal_octets()),
        },
{
    match m.inside() {
        Some(Ok(inner)) => {
            let n = choose|n: nat| inner.layers_within(n);
            let k = if m is Compressed {
                n + 1
            } else {
                n
            };
            assert(m.layers_within(k));
            lemma_content(m, k);
        },
        _ => {
            assert(m.layers_within(0));
            lemma_content(m, 0);
        },
    }
}

/// Opening one layer of compression first changes nothing about the content.
pub proof fn law_content_of_layer(m: MessageModel)
    requires
        m.decompressed() matches Ok(inner) ==> inner.layers_end(),
    ensures
        m.layers_end(),
        m.content() == match m.decompressed() {
            Ok(inner) => inner.content(),
            Err(e) => Err(e),
        },
{
    if m is Compressed {
        law_content_is_what_is_inside(m);
    }
}

/// A message with literal data under nothing but signatures has that data as its content.
pub proof fn law_literal_is_content(m: MessageModel)
    requires
        m.literal() is Some,
    ensures
        m.layers_end(),
        m.content() == Ok::<Option<Seq<u8>>, Error>(m.literal_octets()),
    decreases m,
{
    match m {
        MessageModel::Signed { message: Some(inner), .. } => {
            law_literal_is_content(*inner);
        },
        _ => {},
    }
    law_content_is_what_is_inside(m);
}

/// There is an error in place of the content if and only if some layer of compression
/// cannot be opened.
pub proof fn law_content_fails_iff_layer_broken(m: MessageModel)
    requires
        m.layers_end(),
    ensures
        m.content() is Err <==> m.has_broken_layer(),
{
    let n = choose|n: nat| m.layers_within(n);
    lemma_content_fails(m, n);
}

/// The content by the outermost layer: literal data, in whatever mode, is its own content;
/// a signature, announced or not, and compression are passed through; an encrypted message
/// and a signature that stands alone have none.
pub proof fn law_content_by_outermost_layer(m: MessageModel)
    requires
        m matches MessageModel::Signed { message: Some(x), .. } ==> x.layers_end(),
        m is Compressed ==> (m.decompressed() matches Ok(x) ==> x.layers_end()),
    ensures
        m.layers_end(),
        match m {
            MessageModel::Literal(l) => m.content() == Ok::<Option<Seq<u8>>, Error>(Some(l.data)),
            MessageModel::Signed { message: Some(x), .. } => m.content() == x.content(),
            MessageModel::Signed { message: None, .. } => m.content() == Ok::<
                Option<Seq<u8>>,
                Error,
            >(None),
            MessageModel::Compressed(_) => match m.decompressed() {
                Ok(x) => m.content() == x.content(),
                Err(e) => m.content() == Err::<Option<Seq<u8>>, Error>(e),
            },
            MessageModel::Encrypted { .. } => m.content() == Ok::<Option<Seq<u8>>, Error>(None),
        },
{
    law_content_is_what_is_inside(m);
    if let MessageModel::Literal(_) = m {
        assert(m.layers_within(0));
        lemma_content(m, 0);
    }
}

/// What lies a layer deeper, by the outermost layer.
pub proof fn law_depth_by_outermost_layer(m: MessageModel, k: nat)
    ensures
        m.at_depth(0) == Some(m),
        match m {
            MessageModel::Signed { message: Some(x), .. } => m.at_depth(k + 1) == x.at_depth(k),
            MessageModel::Compressed(_) => match m.decompressed() {
                Ok(x) => m.at_depth(k + 1) == x.at_depth(k),
                Err(_) => m.at_depth(k + 1) is None,
            },
            _ => m.at_depth(k + 1) is None,
        },
{
}

/// The content is the data of the literal packet that lies innermost. There is none only
/// where what lies innermost is encrypted, or a signature that stands alone; and there is
/// an error only where a layer cannot be opened, and it is that layer's.
pub proof fn law_content_is_innermost_data(m: MessageModel)
    requires
        m.layers_end(),
    ensures
        match m.content() {
            Ok(Some(c)) => exists|k: nat|
                (#[trigger] m.at_depth(k)) matches Some(MessageModel::Literal(l)) && l.data == c,
            Ok(None) => exists|k: nat|
                {
                    &&& (#[trigger] m.at_depth(k)) matches Some(x)
                    &&& x is Encrypted || (x matches MessageModel::Signed { message: None, .. })
                },
            Err(e) => exists|k: nat|
                {
                    &&& (#[trigger] m.at_depth(k)) matches Some(x)
                    &&& x is Compressed
                    &&& x.decompressed() == Err::<MessageModel, Error>(e)
                },
        },
{
    let n = choose|n: nat| m.layers_within(n);
    let k = lemma_innermost_depth(m, n);
    assert(m.at_depth(k) is Some);
}

proof fn lemma_innermost_depth(m: MessageModel, n: nat) -> (k: nat)
    requires
        m.layers_within(n),
    ensures
        m.at_depth(k) matches Some(x) && match m.content_within(n) {
            Ok(Some(c)) => x matches MessageModel::Literal(l) && l.data == c,
            Ok(None) => x is Encrypted || (x matches MessageModel::Signed { message: None, .. }),
            Err(e) => x is Compressed && x.decompressed() == Err::<MessageModel, Error>(e),
        },
    decreases n, m,
{
    match m {
        MessageModel::Signed { message: Some(inner), .. } => {
            let k = lemma_innermost_depth(*inner, n);
            assert(m.at_depth(k + 1) == inner.at_depth(k));
            k + 1
        },
        MessageModel::Compressed(_) => match m.decompressed() {
            Ok(inner) => {
                let k = lemma_innermost_depth(inner, (n - 1) as nat);
                assert(m.at_depth(k + 1) == inner.at_depth(k));
                k + 1
            },
            Err(_) => 0,
        },
        _ => 0,
    }
}

/// How many layers of compression a message has, by its outermost layer: signatures add
/// none, compression that can be opened adds one, and all else has none.
pub proof fn law_layers_by_outermost_layer(m: MessageModel, n: nat)
    ensures
        match m {
            MessageModel::Signed { message: Some(x), .. } => m.layers_within(n)
                == x.layers_within(n),
            MessageModel::Compressed(_) => match m.decompressed() {
                Ok(x) => !m.layers_within(0) && m.layers_within(n + 1) == x.layers_within(n)
                    && !m.outer_layers_within(0) && m.outer_layers_within(n + 1)
                    == x.outer_layers_within(n),
                Err(_) => m.layers_within(n) && m.outer_layers_within(n),
            },
            _ => m.layers_within(n),
        },
        !(m is Compressed) ==> m.outer_layers_within(n),
{
}

/// The literal data of a message: that of the message under any signatures, announced or
/// not, and in whatever mode; compressed and encrypted messages show none.
pub proof fn law_literal_by_outermost_layer(m: MessageModel)
    ensures
        match m {
            MessageModel::Literal(l) => m.literal() == Some(l),
            MessageModel::Signed { message: Some(x), .. } => m.literal() == x.literal(),
            _ => m.literal() is None,
        },
        m.literal() matches Some(l) ==> m.literal_octets() == Some(l.data),
        m.literal() is None ==> m.literal_octets() is None,
{
}

/// Compressing takes the algorithm that was asked for, and its result for the octets of the
/// message; only the two algorithms without an implementation are refused, and otherwise
/// it fails only as writing or the compressor does.
pub proof fn law_compressed_with_the_algorithm(m: MessageModel, alg: CompressionAlgorithm)
    ensures
        alg is BZip2 ==> m.compressed(alg) == Err::<MessageModel, Error>(Error::UnimplementedBZip2),
        alg is Private10 ==> m.compressed(alg) == Err::<MessageModel, Error>(
            Error::UnsupportedPrivate10,
        ),
        m.compressed(alg) matches Ok(x) ==> {
            &&& x matches MessageModel::Compressed(c)
            &&& m.wire() matches Ok(bytes)
            &&& c.algorithm == alg
            &&& c.packet_version == Version::New
            &&& match alg {
                CompressionAlgorithm::Uncompressed => c.data == bytes,
                CompressionAlgorithm::ZIP => deflate_encoded(bytes) == Some(c.data),
                CompressionAlgorithm::ZLIB => zlib_encoded(bytes) == Some(c.data),
                _ => false,
            }
        },
        m.compressed(alg) matches Err(e) ==> {
            ||| alg is BZip2
            ||| alg is Private10
            ||| m.wire() == Err::<Seq<u8>, Error>(e)
            ||| alg is ZIP && deflate_encoded(m.wire()->Ok_0) is None && e == Error::Compression
            ||| alg is ZLIB && zlib_encoded(m.wire()->Ok_0) is None && e == Error::Compression
        },
{
}

/// Decompressing reads the message in what the algorithm of the packet makes of its data;
/// a message that is not compressed stays as it is.
pub proof fn law_decompressed_with_the_algorithm(m: MessageModel)
    ensures
        match m {
            MessageModel::Compressed(c) => match c.algorithm {
                CompressionAlgorithm::Uncompressed => m.decompressed() == message_of(c.data),
                CompressionAlgorithm::ZIP => m.decompressed() == match deflate_decoded(c.data) {
                    Some(bytes) => message_of(bytes),
                    None => Err(Error::Decompression),
                },
                CompressionAlgorithm::ZLIB => m.decompressed() == match zlib_decoded(c.data) {
                    Some(bytes) => message_of(bytes),
                    None => Err(Error::Decompression),
                },
                CompressionAlgorithm::BZip2 => m.decompressed() == Err::<MessageModel, Error>(
                    Error::UnimplementedBZip2,
                ),
                CompressionAlgorithm::Private10 => m.decompressed() == Err::<MessageModel, Error>(
                    Error::UnsupportedPrivate10,
                ),
            },
            _ => m.decompressed() == Ok::<MessageModel, Error>(m),
        },
{
}

proof fn lemma_content_fails(m: MessageModel, n: nat)
    requires
        m.layers_within(n),
    ensures
        m.content_within(n) is Err <==> m.has_broken_layer(),
    decreases n, m,
{
    match m.inside() {
        Some(Ok(inner)) => {
            let left = if m is Compressed {
                (n - 1) as nat
            } else {
                n
            };
            lemma_content_fails(inner, left);
            if inner.has_broken_layer() {
                let k = choose|k: nat|
                    (#[trigger] inner.at_depth(k)) matches Some(c) && c is Compressed
                        && c.decompressed() is Err;
                assert(m.at_depth(k + 1) == inner.at_depth(k));
            }
            if m.has_broken_layer() {
                let k = choose|k: nat|
                    (#[trigger] m.at_depth(k)) matches Some(c) && c is Compressed
                        && c.decompressed() is Err;
                assert(k > 0);
                assert(m.at_depth(k) == inner.at_depth((k - 1) as nat));
            }
        },
        Some(Err(_)) => {
            assert(m.at_depth(0) == Some(m));
        },
        None => {
            if m.has_broken_layer() {
                let k = choose|k: nat|
                    (#[trigger] m.at_depth(k)) matches Some(c) && c is Compressed
                        && c.decompressed() is Err;
                assert(k == 0);
            }
        },
    }
}

impl Message {
    /// A message that is text, with a file name.
    pub fn new_literal(file_name: &str, data: &str) -> (message: Self)
        ensures
            message@ == MessageModel::Literal(
                (LiteralModel {
                    packet_version: Version::New,
                    mode: DataMode::Utf8,
                    file_name: vstd::utf8::encode_utf8(file_name@),
                    created: 0,
                    data: vstd::utf8::encode_utf8(data@),
                }),
            ),
    {
        Message::Literal(LiteralData::from_str(file_name, data))
    }

    /// Compresses the message. What comes out decompresses to the message again, if the
    /// message is one that reads back; its content and its signature are then the same.
    pub fn compress(self, alg: CompressionAlgorithm) -> (r: Result<Self, Error>)
        ensures
            match self@.compressed(alg) {
                Ok(m) => r matches Ok(x) && x@ == m,
                Err(e) => r == Err::<Message, Error>(e),
            },
            self@.reads_back() ==> (r matches Ok(x) ==> x@.decompressed() == Ok::<
                MessageModel,
                Error,
            >(self@)),
            self@.reads_back() && self@.layers_end() ==> (r matches Ok(x) ==> x@.layers_end()
                && x@.content() == self@.content()),
            self@.reads_back() && self@.outer_layers_end() ==> (r matches Ok(x)
                ==> x@.outer_layers_end() && x@.innermost() == self@.innermost()),
            r matches Ok(x) ==> (x@ matches MessageModel::Compressed(c) && c.content()
                == self@.wire()),
    {
        match alg {
            CompressionAlgorithm::BZip2 => {
                return Err(Error::UnimplementedBZip2);
            },
            CompressionAlgorithm::Private10 => {
                return Err(Error::UnsupportedPrivate10);
            },
            _ => {},
        }
        let bytes = match self.to_bytes() {
            Ok(bytes) => bytes,
            Err(e) => {
                return Err(e);
            },
        };
        match compress_bytes(alg, bytes.as_slice()) {
            Ok(data) => {
                let outer = Message::Compressed(CompressedData::from_compressed(alg, data));
                proof {
                    self.lemma_wf();
                    if self@.reads_back() {
                        law_message_round_trip(self@);
                        if self@.layers_end() {
                            law_content_of_layer(outer@);
                        }
                        if self@.outer_layers_end() {
                            law_innermost_of_layer(outer@);
                        }
                    }
                }
                Ok(outer)
            },
            Err(e) => Err(e),
        }
    }

    /// Opens one layer of compression; a message that is not compressed is returned as
    /// it is.
    pub fn decompress(self) -> (r: Result<Self, Error>)
        ensures
            match self@.decompressed() {
                Ok(m) => r matches Ok(x) && x@ == m,
                Err(e) => r == Err::<Message, Error>(e),
            },
            !(self@ is Compressed) ==> r == Ok::<Message, Error>(self),
    {
        match self {
            Message::Compressed(data) => match data.decompress() {
                Ok(bytes) => Message::from_bytes(bytes.as_slice()),
                Err(e) => Err(e),
            },
            _ => Ok(self),
        }
    }

    /// Opens the layers of compression that the message begins with.
    pub fn innermost(&self) -> (r: Result<Message, Error>)
        requires
            self@.outer_layers_end(),
        ensures
            match self@.innermost() {
                Ok(m) => r matches Ok(x) && x@ == m && !(m is Compressed),
                Err(e) => r == Err::<Message, Error>(e),
            },
    {
        let ghost mut n: nat = choose|n: nat| self@.outer_layers_within(n);
        proof {
            lemma_innermost(self@, n);
        }
        let mut current = self.clone();
        loop
            invariant
                current@.outer_layers_within(n),
                current@.opened(n) == self@.innermost(),
                self@.innermost() matches Ok(x) ==> !(x is Compressed),
            decreases n, if current@ is Compressed {
                1int
            } else {
                0int
            },
        {
            match current {
                Message::Compressed(data) => match data.decompress() {
                    Ok(bytes) => match Message::from_bytes(bytes.as_slice()) {
                        Ok(m) => {
                            proof {
                                n = (n - 1) as nat;
                            }
                            current = m;
                        },
                        Err(e) => {
                            return Err(e);
                        },
                    },
                    Err(e) => {
                        return Err(e);
                    },
                },
                _ => {
                    return Ok(current);
                },
            }
        }
    }

    /// Opens the layers of compression that the message begins with, if there are at
    /// most `limit` of them; `None` if there are more.
    pub fn innermost_within(&self, limit: usize) -> (r: Option<Result<Message, Error>>)
        ensures
            r is Some <==> self@.outer_layers_within(limit as nat),
            r matches Some(found) ==> self@.outer_layers_end() && match self@.innermost() {
                Ok(m) => found matches Ok(x) && x@ == m && !(m is Compressed),
                Err(e) => found == Err::<Message, Error>(e),
            },
    {
        let mut current = self.clone();
        let mut left = limit;
        proof {
            if self@.outer_layers_within(limit as nat) {
                lemma_innermost(self@, limit as nat);
            }
        }
        loop
            invariant
                current@.outer_layers_within(left as nat) == self@.outer_layers_within(limit as nat),
                self@.outer_layers_within(limit as nat) ==> {
                    &&& self@.outer_layers_end()
                    &&& current@.opened(left as nat) == self@.innermost()
                    &&& self@.innermost() matches Ok(x) ==> !(x is Compressed)
                },
            decreases left,
        {
            match current {
                Message::Compressed(data) => match data.decompress() {
                    Ok(bytes) => match Message::from_bytes(bytes.as_slice()) {
                        Ok(m) => {
                            if left == 0 {
                                return None;
                            }
                            left = left - 1;
                            current = m;
                        },
                        Err(e) => {
                            return Some(Err(e));
                        },
                    },
                    Err(e) => {
                        return Some(Err(e));
                    },
                },
                _ => {
                    return Some(Ok(current));
                },
            }
        }
    }

    /// Whether the message is a signature that was announced before what it signs.
    pub fn is_one_pass_signed(&self) -> (r: bool)
        ensures
            r <==> (self@ matches MessageModel::Signed { one_pass_signature, .. }
                && one_pass_signature is Some),
    {
        match self {
            Message::Signed { one_pass_signature, .. } => one_pass_signature.is_some(),
            _ => false,
        }
    }

    /// Whether the message is literal data, under any signatures.
    pub fn is_literal(&self) -> (r: bool)
        ensures
            r == (self@.literal() is Some),
        decreases self,
    {
        match self {
            Message::Literal(_) => true,
            Message::Signed { message, .. } => {
                if let Some(msg) = message {
                    msg.is_literal()
                } else {
                    false
                }
            },
            _ => false,
        }
    }

    /// The literal data of the message, under any signatures.
    pub fn get_literal(&self) -> (r: Option<&LiteralData>)
        ensures
            match self@.literal() {
                Some(l) => r matches Some(x) && x@ == l,
                None => r is None,
            },
        decreases self,
    {
        match self {
            Message::Literal(data) => Some(data),
            Message::Signed { message, .. } => {
                if let Some(msg) = message {
                    msg.get_literal()
                } else {
                    None
                }
            },
            _ => None,
        }
    }

    fn content_under(&self, Ghost(n): Ghost<nat>) -> (r: Result<Option<Vec<u8>>, Error>)
        requires
            self@.layers_within(n),
        ensures
            match self@.content_within(n) {
                Ok(Some(octets)) => r matches Ok(Some(x)) && x@ == octets,
                Ok(None) => r matches Ok(None),
                Err(e) => r == Err::<Option<Vec<u8>>, Error>(e),
            },
        decreases n, self,
    {
        match self {
            Message::Literal(data) => Ok(Some(slice_to_vec(data.data()))),
            Message::Signed { message, .. } => {
                if let Some(message) = message {
                    message.content_under(Ghost(n))
                } else {
                    Ok(None)
                }
            },
            Message::Compressed(data) => {
                let msg = match data.decompress() {
                    Ok(bytes) => match Message::from_bytes(bytes.as_slice()) {
                        Ok(msg) => msg,
                        Err(e) => {
                            return Err(e);
                        },
                    },
                    Err(e) => {
                        return Err(e);
                    },
                };
                msg.content_under(Ghost((n - 1) as nat))
            },
            Message::Encrypted { .. } => Ok(None),
        }
    }

    /// The underlying content, under signatures and compression in any nesting; none if
    /// the message is encrypted, or a signature that stands alone.
    pub fn get_content(&self) -> (r: Result<Option<Vec<u8>>, Error>)
        requires
            self@.layers_end(),
        ensures
            match self@.content() {
                Ok(Some(octets)) => r matches Ok(Some(x)) && x@ == octets,
                Ok(None) => r matches Ok(None),
                Err(e) => r == Err::<Option<Vec<u8>>, Error>(e),
            },
            self@ is Encrypted ==> r matches Ok(None),
    {
        self.content_under(Ghost(choose|n: nat| self@.layers_within(n)))
    }

    fn has_layers_within(&self, limit: usize) -> (r: bool)
        ensures
            r == self@.layers_within(limit as nat),
        decreases limit, self,
    {
        match self {
            Message::Signed { message, .. } => {
                if let Some(message) = message {
                    message.has_layers_within(limit)
                } else {
                    true
                }
            },
            Message::Compressed(data) => match data.decompress() {
                Ok(bytes) => match Message::from_bytes(bytes.as_slice()) {
                    Ok(msg) => limit > 0 && msg.has_layers_within(limit - 1),
                    Err(_) => true,
                },
                Err(_) => true,
            },
            _ => true,
        }
    }

    /// The underlying content, if it lies under at most `limit` layers of compression;
    /// `None` if there are more.
    pub fn get_content_within(&self, limit: usize) -> (r: Option<
        Result<Option<Vec<u8>>, Error>,
    >)
        ensures
            r is Some <==> self@.layers_within(limit as nat),
            r matches Some(found) ==> self@.layers_end() && match self@.content() {
                Ok(Some(octets)) => found matches Ok(Some(x)) && x@ == octets,
                Ok(None) => found matches Ok(None),
                Err(e) => found == Err::<Option<Vec<u8>>, Error>(e),
            },
    {
        if self.has_layers_within(limit) {
            Some(self.get_content())
        } else {
            None
        }
    }
}

} // verus!
