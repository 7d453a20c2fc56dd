//! Composite values on the writer: objects, arrays, sequences and maps,
//! assembled from members and elements that each end in a comma, the last of
//! which the closing bracket overwrites.
use vstd::prelude::*;
use vstd::string::StringSliceAdditionalSpecFns;
use crate::json::traits::{write_step, Write, WriteArray, WriteAs, WriteKeyAs, WriteObject};
use crate::json::writer::{closed_text, inner_level, lemma_closed_text_append, line_text, Writer};
use crate::options::{Options, Settings};

verus! {

/// The text of a container: its opening bracket, `body` written inside it,
/// and the closing bracket over the final comma.
pub open spec fn container_text(open: u8, close: u8, body: Seq<u8>, level: nat, s: Settings) -> Seq<u8> {
    closed_text(seq![open] + body, close, level, s)
}

/// The break before an element, given what was written just before it: a
/// line of its own, or the space after a comma under an inline-array policy.
pub open spec fn item_text(prev: Seq<u8>, level: nat, s: Settings) -> Seq<u8> {
    if s.new_lines_in_arrays {
        line_text(level, s)
    } else if s.pretty && prev.len() > 0 && prev.last() == 0x2c {
        seq![0x20u8]
    } else {
        Seq::empty()
    }
}

/// The `:` between a key and its value.
pub open spec fn colon_text(s: Settings) -> Seq<u8> {
    if s.pretty { seq![0x3au8, 0x20u8] } else { seq![0x3au8] }
}

/// One `"key":value,` member, `prefix` being the quoted key with its colon.
pub open spec fn member_text(prefix: Seq<u8>, value: Seq<u8>, level: nat, s: Settings) -> Seq<u8> {
    line_text(level, s) + prefix + (if s.pretty { seq![0x20u8] } else { Seq::empty() }) + value + seq![0x2cu8]
}

/// The elements of a sequence, each `value,` after its break.
pub open spec fn seq_body<T: Write>(items: Seq<T>, s: Settings, level: nat) -> Seq<u8>
    decreases items.len(),
{
    if items.len() == 0 {
        Seq::empty()
    } else {
        let prev = if items.len() == 1 { seq![0x5bu8] } else { seq![0x2cu8] };
        seq_body(items.drop_last(), s, level) + item_text(prev, level, s) + items.last().spec_json(s, level)
            + seq![0x2cu8]
    }
}

/// The elements of a sequence written through the adapter `A`.
pub open spec fn seq_body_as<A: WriteAs<T>, T>(items: Seq<T>, s: Settings, level: nat) -> Seq<u8>
    decreases items.len(),
{
    if items.len() == 0 {
        Seq::empty()
    } else {
        let prev = if items.len() == 1 { seq![0x5bu8] } else { seq![0x2cu8] };
        seq_body_as::<A, T>(items.drop_last(), s, level) + item_text(prev, level, s)
            + A::spec_json_as(&items.last(), s, level) + seq![0x2cu8]
    }
}

/// A key as a map member writes it.
pub trait ToJsonKey {
    /// The key, quotes included.
    spec fn spec_key(&self) -> Seq<u8>;

    fn write_key<O: Options>(&self, w: &mut Writer<O>)
        requires
            old(w).wf(),
        ensures
            write_step(*old(w), *final(w), self.spec_key()),
    ;
}

/// The members of a map, each `"key":value,` on its line.
pub open spec fn keyed_body<K: ToJsonKey, V: Write>(entries: Seq<(K, V)>, s: Settings, level: nat) -> Seq<u8>
    decreases entries.len(),
{
    if entries.len() == 0 {
        Seq::empty()
    } else {
        let e = entries.last();
        keyed_body(entries.drop_last(), s, level) + line_text(level, s) + e.0.spec_key() + colon_text(s)
            + e.1.spec_json(s, level) + seq![0x2cu8]
    }
}

/// The members of a map, keys and values each through an adapter.
pub open spec fn keyed_body_as<KA: WriteKeyAs<K>, VA: WriteAs<V>, K, V>(entries: Seq<(K, V)>, s: Settings, level: nat) -> Seq<u8>
    decreases entries.len(),
{
    if entries.len() == 0 {
        Seq::empty()
    } else {
        let e = entries.last();
        keyed_body_as::<KA, VA, K, V>(entries.drop_last(), s, level) + line_text(level, s) + KA::spec_key_as(&e.0)
            + colon_text(s) + VA::spec_json_as(&e.1, s, level) + seq![0x2cu8]
    }
}

/// The complete `"KEY":` prefix of a JSON member.
pub fn quoted_key(key: &str) -> (r: Vec<u8>)
    ensures
        r@ == seq![0x22u8] + key.spec_bytes() + seq![0x22u8, 0x3au8],
{
    let bytes = key.as_bytes();
    let mut out: Vec<u8> = Vec::new();
    out.push(0x22u8);
    let mut i: usize = 0;
    while i < bytes.len()
        invariant
            i <= bytes@.len(),
            bytes@ == key.spec_bytes(),
            out@ == seq![0x22u8] + bytes@.subrange(0, i as int),
        decreases bytes@.len() - i,
    {
        out.push(bytes[i]);
        i += 1;
        proof {
            assert(out@ =~= seq![0x22u8] + bytes@.subrange(0, i as int));
        }
    }
    out.push(0x22u8);
    out.push(0x3au8);
    proof {
        assert(bytes@.subrange(0, bytes@.len() as int) =~= bytes@);
        assert(out@ =~= seq![0x22u8] + key.spec_bytes() + seq![0x22u8, 0x3au8]);
    }
    out
}

impl<O: Options> Writer<O> {
    /// Open a container, run nothing yet; the text so far is the bracket.
    proof fn lemma_container(&self, before: Seq<u8>, open: u8, close: u8, body: Seq<u8>, level: nat)
        requires
            self.bytes() == closed_text(before.push(open) + body, close, level, self.settings()),
        ensures
            self.bytes() == before + container_text(open, close, body, level, self.settings()),
    {
        assert(before.push(open) + body =~= before + (seq![open] + body));
        lemma_closed_text_append(before, seq![open] + body, close, level, self.settings());
    }

    /// Write a struct as a JSON object.
    pub fn write_object<T: WriteObject>(&mut self, value: &T)
        requires
            old(self).wf(),
        ensures
            write_step(*old(self), *final(self), container_text(0x7bu8, 0x7du8,
                value.spec_fields(O::spec_settings(), inner_level(0x7bu8, old(self).level(), O::spec_settings())),
                old(self).level(), O::spec_settings())),
    {
        proof {
            self.lemma_wf();
        }
        let grew = self.open(0x7bu8);
        let ghost mid = self.bytes();
        value.write_fields(self);
        self.close(0x7du8, grew);
        proof {
            self.lemma_container(old(self).bytes(), 0x7bu8, 0x7du8,
                value.spec_fields(O::spec_settings(), inner_level(0x7bu8, old(self).level(), O::spec_settings())),
                old(self).level());
        }
    }

    /// Write one `"key":value,` member; under a policy that skips nulls, a
    /// member holding nothing is not written at all.
    pub fn member<T: Write>(&mut self, prefix: &str, value: &T)
        requires
            old(self).wf(),
        ensures
            write_step(*old(self), *final(self), if O::spec_settings().skip_null && value.spec_is_null() {
                Seq::empty()
            } else {
                member_text(prefix.spec_bytes(), value.spec_json(O::spec_settings(), old(self).level()),
                    old(self).level(), O::spec_settings())
            }),
    {
        if O::settings().skip_null && value.is_null() {
            proof {
                assert(old(self).bytes() + Seq::<u8>::empty() =~= old(self).bytes());
            }
            return;
        }
        self.key(prefix);
        value.write(self);
        self.push(0x2cu8);
        proof {
            let s = O::spec_settings();
            let l = old(self).level();
            let sp: Seq<u8> = if s.pretty { seq![0x20u8] } else { Seq::empty() };
            assert((old(self).bytes() + line_text(l, s) + prefix.spec_bytes() + sp + value.spec_json(s, l)).push(0x2cu8)
                =~= old(self).bytes() + member_text(prefix.spec_bytes(), value.spec_json(s, l), l, s));
        }
    }

    /// Write one `"key":value,` member, the value through the adapter `A`.
    pub fn member_with<A: WriteAs<T>, T>(&mut self, prefix: &str, value: &T)
        requires
            old(self).wf(),
        ensures
            write_step(*old(self), *final(self), if O::spec_settings().skip_null && A::spec_is_null_as(value) {
                Seq::empty()
            } else {
                member_text(prefix.spec_bytes(), A::spec_json_as(value, O::spec_settings(), old(self).level()),
                    old(self).level(), O::spec_settings())
            }),
    {
        if O::settings().skip_null && A::is_null(value) {
            proof {
                assert(old(self).bytes() + Seq::<u8>::empty() =~= old(self).bytes());
            }
            return;
        }
        self.key(prefix);
        A::write(value, self);
        self.push(0x2cu8);
        proof {
            let s = O::spec_settings();
            let l = old(self).level();
            let sp: Seq<u8> = if s.pretty { seq![0x20u8] } else { Seq::empty() };
            assert((old(self).bytes() + line_text(l, s) + prefix.spec_bytes() + sp + A::spec_json_as(value, s, l)).push(0x2cu8)
                =~= old(self).bytes() + member_text(prefix.spec_bytes(), A::spec_json_as(value, s, l), l, s));
        }
    }

    /// Write an enum variant that carries a value: `{"Name":value}`.
    pub fn write_tagged<T: Write>(&mut self, prefix: &str, value: &T)
        requires
            old(self).wf(),
        ensures
            write_step(*old(self), *final(self), container_text(0x7bu8, 0x7du8,
                member_text(prefix.spec_bytes(),
                    value.spec_json(O::spec_settings(), inner_level(0x7bu8, old(self).level(), O::spec_settings())),
                    inner_level(0x7bu8, old(self).level(), O::spec_settings()), O::spec_settings()),
                old(self).level(), O::spec_settings())),
    {
        proof {
            self.lemma_wf();
        }
        let grew = self.open(0x7bu8);
        let ghost mid = self.bytes();
        let ghost inner = self.level();
        self.key(prefix);
        value.write(self);
        self.push(0x2cu8);
        proof {
            let s = O::spec_settings();
            let sp: Seq<u8> = if s.pretty { seq![0x20u8] } else { Seq::empty() };
            assert((mid + line_text(inner, s) + prefix.spec_bytes() + sp + value.spec_json(s, inner)).push(0x2cu8)
                =~= mid + member_text(prefix.spec_bytes(), value.spec_json(s, inner), inner, s));
        }
        self.close(0x7du8, grew);
        proof {
            let s = O::spec_settings();
            self.lemma_container(old(self).bytes(), 0x7bu8, 0x7du8,
                member_text(prefix.spec_bytes(), value.spec_json(s, inner), inner, s), old(self).level());
        }
    }

    /// Write a struct as a JSON array.
    pub fn write_array<T: WriteArray>(&mut self, value: &T)
        requires
            old(self).wf(),
        ensures
            write_step(*old(self), *final(self), container_text(0x5bu8, 0x5du8,
                value.spec_elements(O::spec_settings(), inner_level(0x5bu8, old(self).level(), O::spec_settings())),
                old(self).level(), O::spec_settings())),
    {
        proof {
            self.lemma_wf();
        }
        let grew = self.open(0x5bu8);
        value.write_elements(self);
        self.close(0x5du8, grew);
        proof {
            self.lemma_container(old(self).bytes(), 0x5bu8, 0x5du8,
                value.spec_elements(O::spec_settings(), inner_level(0x5bu8, old(self).level(), O::spec_settings())),
                old(self).level());
        }
    }

    /// Write one `value,` element, after its break.
    pub fn element<T: Write>(&mut self, value: &T)
        requires
            old(self).wf(),
        ensures
            write_step(*old(self), *final(self), item_text(old(self).bytes(), old(self).level(), O::spec_settings())
                + value.spec_json(O::spec_settings(), old(self).level()) + seq![0x2cu8]),
    {
        self.item();
        value.write(self);
        self.push(0x2cu8);
        proof {
            let s = O::spec_settings();
            let l = old(self).level();
            assert((old(self).bytes() + item_text(old(self).bytes(), l, s) + value.spec_json(s, l)).push(0x2cu8)
                =~= old(self).bytes() + (item_text(old(self).bytes(), l, s) + value.spec_json(s, l) + seq![0x2cu8]));
        }
    }

    /// Write a sequence as a JSON array.
    pub fn write_seq<T: Write>(&mut self, items: &[T])
        requires
            old(self).wf(),
        ensures
            write_step(*old(self), *final(self), container_text(0x5bu8, 0x5du8,
                seq_body(items@, O::spec_settings(), inner_level(0x5bu8, old(self).level(), O::spec_settings())),
                old(self).level(), O::spec_settings())),
    {
        let ghost s = O::spec_settings();
        proof {
            self.lemma_wf();
        }
        let grew = self.open(0x5bu8);
        let ghost inner = self.level();
        let mut i: usize = 0;
        while i < items.len()
            invariant
                self.wf(),
                i <= items@.len(),
                s == O::spec_settings(),
                self.level() == inner,
                inner == inner_level(0x5bu8, old(self).level(), s),
                self.text_start() == old(self).text_start(),
                old(self).text_start() <= old(self).bytes().len(),
                self.bytes() == old(self).bytes().push(0x5bu8) + seq_body(items@.subrange(0, i as int), s, inner),
            decreases items@.len() - i,
        {
            let ghost before = self.bytes();
            proof {
                let prefix = items@.subrange(0, i + 1);
                assert(prefix.drop_last() =~= items@.subrange(0, i as int));
                assert(prefix.last() == items@[i as int]);
                if i == 0 {
                    assert(seq_body(items@.subrange(0, 0), s, inner) =~= Seq::<u8>::empty());
                    assert(before.last() == 0x5bu8);
                } else {
                    let sub = items@.subrange(0, i as int);
                    assert(seq_body(sub, s, inner) == seq_body(sub.drop_last(), s, inner) + item_text(if sub.len() == 1 { seq![0x5bu8] } else { seq![0x2cu8] }, inner, s) + sub.last().spec_json(s, inner) + seq![0x2cu8]);
                    assert(before.last() == 0x2cu8);
                }
                assert(item_text(before, inner, s) == item_text(if i == 0 { seq![0x5bu8] } else { seq![0x2cu8] }, inner, s));
            }
            self.element(&items[i]);
            i += 1;
            proof {
                assert(self.bytes() =~= old(self).bytes().push(0x5bu8) + seq_body(items@.subrange(0, i as int), s, inner));
            }
        }
        proof {
            assert(items@.subrange(0, items@.len() as int) =~= items@);
        }
        self.close(0x5du8, grew);
        proof {
            self.lemma_container(old(self).bytes(), 0x5bu8, 0x5du8, seq_body(items@, s, inner), old(self).level());
        }
    }

    /// Write a sequence as a JSON array, each element through the adapter
    /// `A`.
    pub fn write_seq_with<A: WriteAs<T>, T>(&mut self, items: &[T])
        requires
            old(self).wf(),
        ensures
            write_step(*old(self), *final(self), container_text(0x5bu8, 0x5du8,
                seq_body_as::<A, T>(items@, O::spec_settings(), inner_level(0x5bu8, old(self).level(), O::spec_settings())),
                old(self).level(), O::spec_settings())),
    {
        let ghost s = O::spec_settings();
        proof {
            self.lemma_wf();
        }
        let grew = self.open(0x5bu8);
        let ghost inner = self.level();
        let mut i: usize = 0;
        while i < items.len()
            invariant
                self.wf(),
                i <= items@.len(),
                s == O::spec_settings(),
                self.level() == inner,
                inner == inner_level(0x5bu8, old(self).level(), s),
                self.text_start() == old(self).text_start(),
                old(self).text_start() <= old(self).bytes().len(),
                self.bytes() == old(self).bytes().push(0x5bu8) + seq_body_as::<A, T>(items@.subrange(0, i as int), s, inner),
            decreases items@.len() - i,
        {
            let ghost before = self.bytes();
            proof {
                let prefix = items@.subrange(0, i + 1);
                assert(prefix.drop_last() =~= items@.subrange(0, i as int));
                assert(prefix.last() == items@[i as int]);
                if i == 0 {
                    assert(seq_body_as::<A, T>(items@.subrange(0, 0), s, inner) =~= Seq::<u8>::empty());
                    assert(before.last() == 0x5bu8);
                } else {
                    assert(before.last() == 0x2cu8);
                }
                assert(item_text(before, inner, s) == item_text(if i == 0 { seq![0x5bu8] } else { seq![0x2cu8] }, inner, s));
            }
            self.item();
            A::write(&items[i], self);
            self.push(0x2cu8);
            i += 1;
            proof {
                assert(self.bytes() =~= old(self).bytes().push(0x5bu8) + seq_body_as::<A, T>(items@.subrange(0, i as int), s, inner));
            }
        }
        proof {
            assert(items@.subrange(0, items@.len() as int) =~= items@);
        }
        self.close(0x5du8, grew);
        proof {
            self.lemma_container(old(self).bytes(), 0x5bu8, 0x5du8, seq_body_as::<A, T>(items@, s, inner), old(self).level());
        }
    }

    /// Write a map as a JSON object, from its entries in order.
    pub fn write_keyed<K: ToJsonKey, V: Write>(&mut self, entries: &[(K, V)])
        requires
            old(self).wf(),
        ensures
            write_step(*old(self), *final(self), container_text(0x7bu8, 0x7du8,
                keyed_body(entries@, O::spec_settings(), inner_level(0x7bu8, old(self).level(), O::spec_settings())),
                old(self).level(), O::spec_settings())),
    {
        let ghost s = O::spec_settings();
        proof {
            self.lemma_wf();
        }
        let grew = self.open(0x7bu8);
        let ghost inner = self.level();
        let mut i: usize = 0;
        while i < entries.len()
            invariant
                self.wf(),
                i <= entries@.len(),
                s == O::spec_settings(),
                self.level() == inner,
                inner == inner_level(0x7bu8, old(self).level(), s),
                self.text_start() == old(self).text_start(),
                old(self).text_start() <= old(self).bytes().len(),
                self.bytes() == old(self).bytes().push(0x7bu8) + keyed_body(entries@.subrange(0, i as int), s, inner),
            decreases entries@.len() - i,
        {
            let ghost before = self.bytes();
            proof {
                let prefix = entries@.subrange(0, i + 1);
                assert(prefix.drop_last() =~= entries@.subrange(0, i as int));
                assert(prefix.last() == entries@[i as int]);
            }
            let e = &entries[i];
            self.line();
            e.0.write_key(self);
            self.colon();
            e.1.write(self);
            self.push(0x2cu8);
            i += 1;
            proof {
                assert(self.bytes() =~= old(self).bytes().push(0x7bu8) + keyed_body(entries@.subrange(0, i as int), s, inner));
            }
        }
        proof {
            assert(entries@.subrange(0, entries@.len() as int) =~= entries@);
        }
        self.close(0x7du8, grew);
        proof {
            self.lemma_container(old(self).bytes(), 0x7bu8, 0x7du8, keyed_body(entries@, s, inner), old(self).level());
        }
    }

    /// Write a map as a JSON object, keys and values each through an
    /// adapter.
    pub fn write_keyed_with<KA: WriteKeyAs<K>, VA: WriteAs<V>, K, V>(&mut self, entries: &[(K, V)])
        requires
            old(self).wf(),
        ensures
            write_step(*old(self), *final(self), container_text(0x7bu8, 0x7du8,
                keyed_body_as::<KA, VA, K, V>(entries@, O::spec_settings(), inner_level(0x7bu8, old(self).level(), O::spec_settings())),
                old(self).level(), O::spec_settings())),
    {
        let ghost s = O::spec_settings();
        proof {
            self.lemma_wf();
        }
        let grew = self.open(0x7bu8);
        let ghost inner = self.level();
        let mut i: usize = 0;
        while i < entries.len()
            invariant
                self.wf(),
                i <= entries@.len(),
                s == O::spec_settings(),
                self.level() == inner,
                inner == inner_level(0x7bu8, old(self).level(), s),
                self.text_start() == old(self).text_start(),
                old(self).text_start() <= old(self).bytes().len(),
                self.bytes() == old(self).bytes().push(0x7bu8) + keyed_body_as::<KA, VA, K, V>(entries@.subrange(0, i as int), s, inner),
            decreases entries@.len() - i,
        {
            proof {
                let prefix = entries@.subrange(0, i + 1);
                assert(prefix.drop_last() =~= entries@.subrange(0, i as int));
                assert(prefix.last() == entries@[i as int]);
            }
            let e = &entries[i];
            self.line();
            KA::write_key(&e.0, self);
            self.colon();
            VA::write(&e.1, self);
            self.push(0x2cu8);
            i += 1;
            proof {
                assert(self.bytes() =~= old(self).bytes().push(0x7bu8) + keyed_body_as::<KA, VA, K, V>(entries@.subrange(0, i as int), s, inner));
            }
        }
        proof {
            assert(entries@.subrange(0, entries@.len() as int) =~= entries@);
        }
        self.close(0x7du8, grew);
        proof {
            self.lemma_container(old(self).bytes(), 0x7bu8, 0x7du8, keyed_body_as::<KA, VA, K, V>(entries@, s, inner), old(self).level());
        }
    }
}

} // verus!
