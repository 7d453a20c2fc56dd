//! The JSON half of the trait set.
//!
//! [`Read`] and [`Write`] are implemented here for the integers, `bool`,
//! `()`, strings, `Option`, `Box`, `Vec` and pairs and triples.
//! [`ReadObject`] and [`WriteObject`] describe a struct's fields against its
//! [`Keys`], [`ReadArray`] and [`WriteArray`] are their positional
//! counterparts, and [`ReadEnum`] is the same idea against [`Variants`].
//! [`ReadAs`] and [`WriteAs`] move a type's reading and writing onto an
//! adapter, and [`ReadKeyAs`] and [`WriteKeyAs`] do the same for map keys.
//!
//! What every reader promises is the same: the parser stays well formed over
//! the same input, a success leaves the nesting level where it was and the
//! cursor no further back. A reader whose outcome the text alone decides
//! says so through a spec function (`spec_read`, `spec_element`,
//! `spec_entry`, `spec_field`, `spec_name`, `spec_payload`), and is then
//! held to exactly that outcome; the structural readers in turn state what
//! they give over those. What every writer promises is exact: it appends
//! the text its `spec_json` names, at the writer's current level.
use vstd::prelude::*;
use crate::error::ErrorCode;
use crate::json::parser::{JsonStr, Parser};
use crate::json::writer::Writer;
use crate::keymap::KeyMap;
use crate::options::{Options, Settings};

verus! {

/// What every reading step leaves behind: the same input, a well-formed
/// cursor, and on success the same level with the cursor no further back.
pub open spec fn read_step<'de, O: Options>(
    before: Parser<'de, O>,
    after: Parser<'de, O>,
    ok: bool,
) -> bool {
    &&& after.wf()
    &&& after.input() == before.input()
    &&& ok ==> after.level() == before.level() && after.pos() >= before.pos()
}

/// What every writing step leaves behind: `text` appended at the level the
/// writer was at, and nothing else changed.
pub open spec fn write_step<O: Options>(before: Writer<O>, after: Writer<O>, text: Seq<u8>) -> bool {
    &&& after.wf()
    &&& after.bytes() == before.bytes() + text
    &&& after.text_start() == before.text_start()
    &&& after.level() == before.level()
}

/// A type that can be parsed from JSON, into an existing value so that what
/// it already holds can be reused.
pub trait Read<'de>: Sized {
    /// What reading the text at `at` gives, for a type whose reading the
    /// text alone decides: the value read or the failure, and where the
    /// cursor stops. `None`, as a type has it unless it says otherwise, for
    /// a type whose reading rests on readers its contract does not pin down.
    open spec fn spec_read(input: Seq<u8>, at: int) -> Option<(Result<Self, ErrorCode>, int)> {
        None
    }

    /// Parse into `self`, from the cursor's current position.
    fn read<O: Options>(&mut self, p: &mut Parser<'de, O>) -> (r: Result<(), ErrorCode>)
        requires
            old(p).wf(),
        ensures
            read_step(*old(p), *final(p), r is Ok),
            Self::spec_read(old(p).input(), old(p).pos()) matches Some((res, end)) ==> final(p).pos() == end
                && match res {
                Ok(v) => r is Ok && *final(self) == v,
                Err(e) => r == Err::<(), ErrorCode>(e),
            },
    ;
}

/// A type that can be serialized to JSON.
pub trait Write {
    /// The text this value writes at nesting `level` under `s`.
    spec fn spec_json(&self, s: Settings, level: nat) -> Seq<u8>;

    /// Whether the value is absent, and so left out of an object under a
    /// policy that skips nulls.
    spec fn spec_is_null(&self) -> bool;

    fn write<O: Options>(&self, w: &mut Writer<O>)
        requires
            old(w).wf(),
        ensures
            write_step(*old(w), *final(w), self.spec_json(O::spec_settings(), old(w).level())),
    ;

    fn is_null(&self) -> (r: bool)
        ensures
            r == self.spec_is_null(),
    ;
}

/// How a field of type `T` is read when its declaration names this adapter.
pub trait ReadAs<'de, T> {
    fn read<O: Options>(value: &mut T, p: &mut Parser<'de, O>) -> (r: Result<(), ErrorCode>)
        requires
            old(p).wf(),
        ensures
            read_step(*old(p), *final(p), r is Ok),
    ;
}

/// How a field of type `T` is written when its declaration names this adapter.
pub trait WriteAs<T> {
    spec fn spec_json_as(value: &T, s: Settings, level: nat) -> Seq<u8>;

    spec fn spec_is_null_as(value: &T) -> bool;

    fn write<O: Options>(value: &T, w: &mut Writer<O>)
        requires
            old(w).wf(),
        ensures
            write_step(*old(w), *final(w), Self::spec_json_as(value, O::spec_settings(), old(w).level())),
    ;

    fn is_null(value: &T) -> (r: bool)
        ensures
            r == Self::spec_is_null_as(value),
    ;
}

/// How a map key of type `T` is read when its declaration names this adapter.
pub trait ReadKeyAs<T> {
    /// Convert an unescaped key to the key type.
    fn from_key(key: &str) -> Result<T, ErrorCode>;
}

/// How a map key of type `T` is written when its declaration names this
/// adapter: the key, quotes included, and nothing after it.
pub trait WriteKeyAs<T> {
    spec fn spec_key_as(value: &T) -> Seq<u8>;

    fn write_key<O: Options>(value: &T, w: &mut Writer<O>)
        requires
            old(w).wf(),
        ensures
            write_step(*old(w), *final(w), Self::spec_key_as(value)),
    ;
}

/// The declared keys of a struct read and written as a JSON object.
pub trait Keys {
    /// The keys, where the type states them for its readers' contracts;
    /// `None`, as a type has it unless it says otherwise, where it does not.
    open spec fn spec_keys() -> Option<Seq<&'static str>> {
        None
    }

    /// The key map, where the type states it.
    open spec fn spec_key_map() -> Option<KeyMap> {
        None
    }

    /// The required-field bits, where the type states them.
    open spec fn spec_required() -> Option<u64> {
        None
    }

    /// The keys, in declaration order.
    fn keys() -> (r: Vec<&'static str>)
        ensures
            Self::spec_keys() matches Some(k) ==> r@ == k,
    ;

    /// The map from a key to its field index, built from [`Keys::keys`].
    fn key_map() -> (m: KeyMap)
        ensures
            m.shape_ok(),
            Self::spec_key_map() matches Some(k) ==> m == k,
    ;

    /// One bit per field, among the first 64, that a document must carry
    /// whatever the policy says.
    fn required() -> (r: u64)
        ensures
            Self::spec_required() matches Some(k) ==> r == k,
    ;
}

/// The number of fields of a struct read and written as a JSON array.
pub trait Elements {
    /// How many elements the array holds.
    spec fn spec_len() -> nat;

    fn len() -> (n: usize)
        ensures
            n == Self::spec_len(),
    ;
}

/// The declared names of an enum's variants.
pub trait Variants {
    /// The names, where the type states them for its readers' contracts;
    /// `None`, as a type has it unless it says otherwise, where it does not.
    open spec fn spec_variants() -> Option<Seq<&'static str>> {
        None
    }

    /// The name map, where the type states it.
    open spec fn spec_variant_map() -> Option<KeyMap> {
        None
    }

    /// The names, in declaration order.
    fn variants() -> (r: Vec<&'static str>)
        ensures
            Self::spec_variants() matches Some(k) ==> r@ == k,
    ;

    /// The map from a name to its variant index, built from
    /// [`Variants::variants`].
    fn variant_map() -> (m: KeyMap)
        ensures
            m.shape_ok(),
            Self::spec_variant_map() matches Some(k) ==> m == k,
    ;
}

/// Field-by-field reading for a struct.
pub trait ReadObject<'de>: Keys + Sized {
    /// What reading field `index` from the key at `at` gives, for a type
    /// whose reading the text alone decides: whether the key was the
    /// field's, or the failure, and where the cursor stops. `None`, as a
    /// type has it unless it says otherwise, where the text does not decide.
    open spec fn spec_field(index: nat, input: Seq<u8>, at: int) -> Option<(Result<bool, ErrorCode>, int)> {
        None
    }

    /// Parse the value for field `index`, the cursor on the first byte of
    /// its key. `Ok(false)` says the key was not this field's, and leaves
    /// the parser untouched.
    fn read_field<O: Options>(&mut self, index: usize, p: &mut Parser<'de, O>) -> (r: Result<bool, ErrorCode>)
        requires
            old(p).wf(),
        ensures
            read_step(*old(p), *final(p), r is Ok),
            r == Ok::<bool, ErrorCode>(false) ==> *final(p) == *old(p),
            Self::spec_field(index as nat, old(p).input(), old(p).pos()) matches Some((res, end)) ==> r == res
                && final(p).pos() == end,
    ;
}

/// Field-by-field writing for a struct.
pub trait WriteObject: Keys {
    /// The members, each as `"key":value,` with its trailing comma.
    spec fn spec_fields(&self, s: Settings, level: nat) -> Seq<u8>;

    fn write_fields<O: Options>(&self, w: &mut Writer<O>)
        requires
            old(w).wf(),
        ensures
            write_step(*old(w), *final(w), self.spec_fields(O::spec_settings(), old(w).level())),
    ;
}

/// Element-by-element reading for a struct written as a JSON array.
pub trait ReadArray<'de>: Elements + Sized {
    /// Parse the value at position `index`, the cursor on its first byte.
    fn read_element<O: Options>(&mut self, index: usize, p: &mut Parser<'de, O>) -> (r: Result<(), ErrorCode>)
        requires
            old(p).wf(),
        ensures
            read_step(*old(p), *final(p), r is Ok),
    ;
}

/// Element-by-element writing for a struct written as a JSON array.
pub trait WriteArray: Elements {
    /// The elements, each as `value,` with its trailing comma.
    spec fn spec_elements(&self, s: Settings, level: nat) -> Seq<u8>;

    fn write_elements<O: Options>(&self, w: &mut Writer<O>)
        requires
            old(w).wf(),
            old(w).bytes().len() > 0,
            old(w).bytes().last() == 0x5bu8,
        ensures
            write_step(*old(w), *final(w), self.spec_elements(O::spec_settings(), old(w).level())),
    ;
}

/// Variant-by-variant reading for an enum.
pub trait ReadEnum<'de>: Variants + Sized {
    /// What taking variant `index` as a bare name at `at` gives, for a type
    /// whose reading the text alone decides: whether the name was the
    /// variant's, or the failure, and where the cursor stops. `None`, as a
    /// type has it unless it says otherwise, where the text does not decide.
    open spec fn spec_name(index: nat, input: Seq<u8>, at: int) -> Option<(Result<bool, ErrorCode>, int)> {
        None
    }

    /// The same for variant `index` written as an object's single key.
    open spec fn spec_payload(index: nat, input: Seq<u8>, at: int) -> Option<(Result<bool, ErrorCode>, int)> {
        None
    }

    /// Take variant `index` written as a bare name, the cursor on its first
    /// byte. `Ok(false)` says the name was not this variant's, and leaves the
    /// parser untouched.
    fn read_name<O: Options>(&mut self, index: usize, p: &mut Parser<'de, O>) -> (r: Result<bool, ErrorCode>)
        requires
            old(p).wf(),
        ensures
            read_step(*old(p), *final(p), r is Ok),
            r == Ok::<bool, ErrorCode>(false) ==> *final(p) == *old(p),
            Self::spec_name(index as nat, old(p).input(), old(p).pos()) matches Some((res, end)) ==> r == res
                && final(p).pos() == end,
    ;

    /// Take variant `index` written as the single key of an object: the key,
    /// the colon and the value.
    fn read_payload<O: Options>(&mut self, index: usize, p: &mut Parser<'de, O>) -> (r: Result<bool, ErrorCode>)
        requires
            old(p).wf(),
        ensures
            read_step(*old(p), *final(p), r is Ok),
            r == Ok::<bool, ErrorCode>(false) ==> *final(p) == *old(p),
            Self::spec_payload(index as nat, old(p).input(), old(p).pos()) matches Some((res, end)) ==> r == res
                && final(p).pos() == end,
    ;
}

/// What [`Parser::read_seq`] calls once per element.
pub trait ReadSeq<'de> {
    /// What reading element `index` at `at` gives, for a reader whose
    /// reading the text alone decides: the outcome and where the cursor
    /// stops. `None`, as a reader has it unless it says otherwise, for one
    /// the text does not decide.
    open spec fn spec_element(index: nat, input: Seq<u8>, at: int) -> Option<(Result<(), ErrorCode>, int)> {
        None
    }

    /// How many elements the reader holds, for one that keeps count; `None`,
    /// as a reader has it unless it says otherwise, for one that does not.
    open spec fn spec_filled(&self) -> Option<nat> {
        None
    }

    /// What the reader holds as element `index`, read from the text at
    /// `at`, for one that keeps its elements; `true`, as a reader has it
    /// unless it says otherwise, for one that does not.
    open spec fn spec_holds(&self, index: nat, input: Seq<u8>, at: int) -> bool {
        true
    }

    /// Read element `index`, the cursor on its first byte.
    fn element<O: Options>(&mut self, index: usize, p: &mut Parser<'de, O>) -> (r: Result<(), ErrorCode>)
        requires
            old(p).wf(),
        ensures
            read_step(*old(p), *final(p), r is Ok),
            old(self).spec_filled() matches Some(a) ==> (final(self).spec_filled() matches Some(b) && b >= a && b
                > index),
            Self::spec_element(index as nat, old(p).input(), old(p).pos()) matches Some((res, end)) ==> r == res
                && final(p).pos() == end,
            Self::spec_element(index as nat, old(p).input(), old(p).pos()) matches Some((Ok(_), _))
                ==> final(self).spec_holds(index as nat, old(p).input(), old(p).pos()),
            forall|j: nat, a: int|
                #![trigger final(self).spec_holds(j, old(p).input(), a)]
                j != index && old(self).spec_holds(j, old(p).input(), a) ==> final(self).spec_holds(j, old(p).input(), a),
    ;
}

/// What [`Parser::read_map`] calls once per member, with its key.
pub trait ReadEntry<'de> {
    /// What taking the member under a key with these bytes, borrowed or
    /// not, with its value at `at`, gives, for a taker the text alone
    /// decides: the outcome and where the cursor stops. `None`, as a taker
    /// has it unless it says otherwise, for one the text does not decide.
    open spec fn spec_entry(key: Seq<u8>, borrowed: bool, input: Seq<u8>, at: int) -> Option<
        (Result<(), ErrorCode>, int),
    > {
        None
    }

    /// Take the member under `key`, the cursor on the first byte of its value.
    fn entry<O: Options>(&mut self, key: JsonStr<'de>, p: &mut Parser<'de, O>) -> (r: Result<(), ErrorCode>)
        requires
            old(p).wf(),
        ensures
            read_step(*old(p), *final(p), r is Ok),
            Self::spec_entry(key.spec_bytes(), key is Borrowed, old(p).input(), old(p).pos()) matches Some((res, end))
                ==> r == res && final(p).pos() == end,
    ;
}

/// The identity adapter: a position that names it reads and writes through
/// the type's own impls.
pub struct Same;

/// A convenience bound for generic containers: readable from any JSON
/// input, and writable. Types that borrow from the input do not satisfy it.
pub trait ReadWrite: for<'de> Read<'de> + Write {}

impl<T> ReadWrite for T where T: for<'de> Read<'de> + Write {}

} // verus!
