//! Whether the signature of a message is good.
use crate::content::{law_innermost_of_layer, law_uncompressed_is_innermost};
use crate::errors::Error;
use crate::message::{Message, MessageModel};
use crate::packet::{LiteralModel, RawModel, Signature};
use vstd::prelude::*;

verus! {

/// What there is to verify in a message.
#[verifier::ext_equal]
pub enum ToVerify {
    /// No signature.
    Nothing,
    /// A signature, and the octets that it signs.
    Signature(RawModel, Seq<u8>),
    /// A signature of a message that is not literal data.
    NotLiteral(MessageModel),
    /// A signature that stands alone.
    Detached,
}

impl ToVerify {
    /// Whether this is the error of a signature that cannot be verified.
    pub open spec fn refused_with(self, e: Error) -> bool {
        match self {
            ToVerify::NotLiteral(m) => e matches Error::UnimplementedVerify(x) && x@ == m,
            ToVerify::Detached => e == Error::UnimplementedDetached,
            _ => false,
        }
    }
}

impl MessageModel {
    /// What there is to verify in the message. Layers of compression are not opened.
    pub open spec fn signed_data(self) -> ToVerify {
        match self {
            MessageModel::Signed { message, signature, .. } => match message {
                Some(m) => match *m {
                    MessageModel::Literal(data) => ToVerify::Signature(signature, data.data),
                    _ => ToVerify::NotLiteral(*m),
                },
                None => ToVerify::Detached,
            },
            _ => ToVerify::Nothing,
        }
    }
}

/// What verifying a message comes to, given what is inside its layers of compression:
/// the verdict of `check` on the signature, the key and the signed octets, if there is
/// a signature.
pub open spec fn verdict<K, V: Fn(&Signature, &K, &[u8]) -> Result<(), Error>>(
    inside: Result<MessageModel, Error>,
    key: &K,
    check: V,
    r: Result<(), Error>,
) -> bool {
    match inside {
        Err(e) => r == Err::<(), Error>(e),
        Ok(m) => match m.signed_data() {
            ToVerify::Nothing => r is Ok,
            ToVerify::Signature(signature, octets) => exists|s: &Signature, d: &[u8]|
                #![trigger call_ensures(check, (s, key, d), r)]
                s@ == signature && d@ == octets && call_ensures(check, (s, key, d), r),
            refused => r matches Err(e) && refused.refused_with(e),
        },
    }
}

/// Every signature of literal data is checked, whether it was announced or not: the verdict
/// is what `check` gives for the signature, the key and the octets of the literal data.
pub proof fn law_every_signature_is_checked<
    K,
    V: Fn(&Signature, &K, &[u8]) -> Result<(), Error>,
>(
    literal: LiteralModel,
    one_pass_signature: Option<RawModel>,
    signature: RawModel,
    key: &K,
    check: V,
    r: Result<(), Error>,
)
    requires
        verdict(
            Ok(
                (MessageModel::Signed {
                    message: Some(Box::new(MessageModel::Literal(literal))),
                    one_pass_signature,
                    signature,
                }),
            ),
            key,
            check,
            r,
        ),
    ensures
        exists|s: &Signature, d: &[u8]|
            #![trigger call_ensures(check, (s, key, d), r)]
            s@ == signature && d@ == literal.data && call_ensures(check, (s, key, d), r),
{
}

/// Only a message that is not signed has nothing to verify, and passes without a check. A
/// signature that stands alone, or that signs anything but literal data, is refused, and
/// what could not be opened gives its error.
pub proof fn law_unchecked_iff_unsigned<K, V: Fn(&Signature, &K, &[u8]) -> Result<(), Error>>(
    m: MessageModel,
    e: Error,
    key: &K,
    check: V,
    r: Result<(), Error>,
)
    ensures
        m.signed_data() is Nothing <==> !(m is Signed),
        !(m is Signed) ==> (verdict(Ok(m), key, check, r) <==> r is Ok),
        m matches MessageModel::Signed { message: None, .. } ==> (verdict(Ok(m), key, check, r)
            <==> r == Err::<(), Error>(Error::UnimplementedDetached)),
        m matches MessageModel::Signed { message: Some(x), .. } ==> (!(*x is Literal) ==> (verdict(
            Ok(m),
            key,
            check,
            r,
        ) <==> (r matches Err(Error::UnimplementedVerify(y)) && y@ == *x))),
        verdict(Err(e), key, check, r) <==> r == Err::<(), Error>(e),
{
}

/// Verifying a compressed message is decompressing it and verifying what it holds, and the
/// error of decompressing it where that fails. So it is through any number of layers.
pub proof fn law_verify_opens_layers<K, V: Fn(&Signature, &K, &[u8]) -> Result<(), Error>>(
    m: MessageModel,
    key: &K,
    check: V,
    r: Result<(), Error>,
)
    requires
        m.decompressed() matches Ok(inner) ==> inner.outer_layers_end(),
    ensures
        m.outer_layers_end(),
        verdict(m.innermost(), key, check, r) <==> match m.decompressed() {
            Ok(inner) => verdict(inner.innermost(), key, check, r),
            Err(e) => r == Err::<(), Error>(e),
        },
{
    law_innermost_of_layer(m);
}

impl Message {
    /// The signature that is to be verified and what it signs; nothing where there is no
    /// signature, and an error where verifying it is not implemented. Layers of
    /// compression are not opened.
    pub fn signed_data(&self) -> (r: Result<Option<(&Signature, &[u8])>, Error>)
        ensures
            match self@.signed_data() {
                ToVerify::Signature(signature, octets) => r matches Ok(Some((s, d))) && s@
                    == signature && d@ == octets,
                ToVerify::Nothing => r matches Ok(None),
                refused => r matches Err(e) && refused.refused_with(e),
            },
    {
        proof {
            reveal_with_fuel(Message::model, 2);
        }
        match self {
            Message::Signed { message, signature, .. } => {
                if let Some(message) = message {
                    match &**message {
                        Message::Literal(data) => Ok(Some((signature, data.data()))),
                        other => Err(Error::UnimplementedVerify(Box::new(other.clone()))),
                    }
                } else {
                    Err(Error::UnimplementedDetached)
                }
            },
            _ => Ok(None),
        }
    }

    fn verify_opened<K, V: Fn(&Signature, &K, &[u8]) -> Result<(), Error>>(
        &self,
        key: &K,
        check: V,
    ) -> (r: Result<(), Error>)
        requires
            forall|s: &Signature, d: &[u8]| call_requires(check, (s, key, d)),
        ensures
            verdict(Ok(self@), key, check, r),
    {
        match self.signed_data() {
            Ok(Some((signature, octets))) => check(signature, key, octets),
            Ok(None) => Ok(()),
            Err(e) => Err(e),
        }
    }

    /// Verifies the message: the signature of a signed message is checked by `check`
    /// against the key, and a compressed message is decompressed first. There is nothing
    /// to verify about other messages.
    pub fn verify<K, V: Fn(&Signature, &K, &[u8]) -> Result<(), Error>>(
        &self,
        key: &K,
        check: V,
    ) -> (r: Result<(), Error>)
        requires
            self@.outer_layers_end(),
            forall|s: &Signature, d: &[u8]| call_requires(check, (s, key, d)),
        ensures
            verdict(self@.innermost(), key, check, r),
            match self {
                Message::Signed { message: Some(m), signature, .. } => match **m {
                    Message::Literal(l) => exists|s: &Signature, d: &[u8]|
                        #![trigger call_ensures(check, (s, key, d), r)]
                        s@ == signature@ && d@ == l.data@ && call_ensures(check, (s, key, d), r),
                    _ => r is Err,
                },
                Message::Signed { message: None, .. } => r is Err,
                Message::Compressed(_) => true,
                _ => r is Ok,
            },
    {
        proof {
            reveal_with_fuel(Message::model, 2);
        }
        match self {
            Message::Compressed(_) => match self.innermost() {
                Ok(m) => m.verify_opened(key, check),
                Err(e) => Err(e),
            },
            _ => {
                proof {
                    law_uncompressed_is_innermost(self@);
                }
                self.verify_opened(key, check)
            },
        }
    }

    /// Verifies the message, if at most `limit` layers of compression lie around it;
    /// `None` if there are more.
    pub fn verify_within<K, V: Fn(&Signature, &K, &[u8]) -> Result<(), Error>>(
        &self,
        key: &K,
        check: V,
        limit: usize,
    ) -> (r: Option<Result<(), Error>>)
        requires
            forall|s: &Signature, d: &[u8]| call_requires(check, (s, key, d)),
        ensures
            r is Some <==> self@.outer_layers_within(limit as nat),
            r matches Some(found) ==> verdict(self@.innermost(), key, check, found),
    {
        match self.innermost_within(limit) {
            Some(_) => Some(self.verify(key, check)),
            None => None,
        }
    }
}

} // verus!
