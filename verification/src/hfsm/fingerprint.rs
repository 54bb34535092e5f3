//! FNV-1a 64 over the canonical definition encoding. Written out here so the value
//! is stable across toolchains.
use vstd::prelude::*;
use crate::hfsm::ids::ActionId;

verus! {

pub const FNV_OFFSET: u64 = 0xcbf2_9ce4_8422_2325;

pub const FNV_PRIME: u64 = 0x0000_0100_0000_01b3;

/// Encoding of an absent optional id.
pub const NONE: u32 = 0xffff_ffff;

pub open spec fn fnv_byte(h: u64, b: u8) -> u64 {
    vstd::wrapping::u64_specs::wrapping_mul(h ^ (b as u64), FNV_PRIME)
}

/// FNV-1a of `bs` continued from state `h`.
pub open spec fn fnv(h: u64, bs: Seq<u8>) -> u64
    decreases bs.len(),
{
    if bs.len() == 0 {
        h
    } else {
        fnv_byte(fnv(h, bs.drop_last()), bs.last())
    }
}

/// Hashing `a` then `b` is hashing `a + b`.
pub proof fn lemma_fnv_concat(h: u64, a: Seq<u8>, b: Seq<u8>)
    ensures
        fnv(fnv(h, a), b) == fnv(h, a + b),
    decreases b.len(),
{
    if b.len() == 0 {
        assert(a + b =~= a);
    } else {
        lemma_fnv_concat(h, a, b.drop_last());
        assert((a + b).drop_last() =~= a + b.drop_last());
        assert((a + b).last() == b.last());
    }
}

/// Little-endian bytes of `v`.
pub open spec fn le_bytes(v: u32) -> Seq<u8> {
    seq![(v & 0xff) as u8, ((v >> 8) & 0xff) as u8, ((v >> 16) & 0xff) as u8, ((v >> 24) & 0xff) as u8]
}

pub open spec fn opt_bytes(v: Option<u32>) -> Seq<u8> {
    match v {
        Some(x) => le_bytes(x),
        None => le_bytes(NONE),
    }
}

/// Every element, in order.
pub open spec fn words(items: Seq<u32>) -> Seq<u8>
    decreases items.len(),
{
    if items.len() == 0 {
        Seq::empty()
    } else {
        words(items.drop_last()) + le_bytes(items.last())
    }
}

/// Length, then every element.
pub open spec fn list_bytes(items: Seq<u32>) -> Seq<u8> {
    le_bytes(items.len() as u32) + words(items)
}

pub open spec fn action_words(items: Seq<ActionId>) -> Seq<u32> {
    items.map_values(|a: ActionId| a.0)
}

pub struct Fnv1a {
    state: u64,
}

impl Fnv1a {
    pub closed spec fn spec_state(&self) -> u64 {
        self.state
    }

    pub fn new() -> (h: Self)
        ensures
            h.spec_state() == FNV_OFFSET,
    {
        Fnv1a { state: FNV_OFFSET }
    }

    pub fn byte(&mut self, b: u8)
        ensures
            final(self).spec_state() == fnv_byte(old(self).spec_state(), b),
    {
        self.state = (self.state ^ (b as u64)).wrapping_mul(FNV_PRIME);
    }

    pub fn bytes(&mut self, bytes: &[u8])
        ensures
            final(self).spec_state() == fnv(old(self).spec_state(), bytes@),
    {
        let ghost h0 = self.state;
        let mut i: usize = 0;
        while i < bytes.len()
            invariant
                i <= bytes@.len(),
                self.state == fnv(h0, bytes@.take(i as int)),
            decreases bytes@.len() - i,
        {
            assert(bytes@.take(i as int + 1).drop_last() =~= bytes@.take(i as int));
            self.byte(bytes[i]);
            i = i + 1;
        }
        assert(bytes@.take(bytes@.len() as int) =~= bytes@);
    }

    pub fn word(&mut self, v: u32)
        ensures
            final(self).spec_state() == fnv(old(self).spec_state(), le_bytes(v)),
    {
        let ghost h0 = self.state;
        let b0 = (v & 0xff) as u8;
        let b1 = ((v >> 8) & 0xff) as u8;
        let b2 = ((v >> 16) & 0xff) as u8;
        let b3 = ((v >> 24) & 0xff) as u8;
        self.byte(b0);
        self.byte(b1);
        self.byte(b2);
        self.byte(b3);
        let ghost s = le_bytes(v);
        assert(s.drop_last().drop_last().drop_last().drop_last() =~= Seq::<u8>::empty());
        assert(s.drop_last().drop_last().drop_last() =~= seq![b0]);
        assert(s.drop_last().drop_last() =~= seq![b0, b1]);
        assert(s.drop_last() =~= seq![b0, b1, b2]);
        assert(seq![b0].drop_last() =~= Seq::<u8>::empty());
        assert(seq![b0, b1].drop_last() =~= seq![b0]);
        assert(seq![b0, b1, b2].drop_last() =~= seq![b0, b1]);
        assert(s =~= seq![b0, b1, b2, b3]);
        assert(seq![b0, b1, b2, b3].drop_last() =~= seq![b0, b1, b2]);
        assert(fnv(h0, Seq::<u8>::empty()) == h0);
        assert(fnv(h0, seq![b0]) == fnv_byte(h0, b0));
        assert(fnv(h0, seq![b0, b1]) == fnv_byte(fnv(h0, seq![b0]), b1));
        assert(fnv(h0, seq![b0, b1, b2]) == fnv_byte(fnv(h0, seq![b0, b1]), b2));
        assert(fnv(h0, seq![b0, b1, b2, b3]) == fnv_byte(fnv(h0, seq![b0, b1, b2]), b3));
    }

    pub fn opt(&mut self, v: Option<u32>)
        ensures
            final(self).spec_state() == fnv(old(self).spec_state(), opt_bytes(v)),
    {
        match v {
            Some(x) => self.word(x),
            None => self.word(NONE),
        }
    }

    pub fn list(&mut self, items: &Vec<ActionId>)
        ensures
            final(self).spec_state() == fnv(old(self).spec_state(), list_bytes(action_words(items@))),
    {
        let ghost h0 = self.state;
        let ghost ws = action_words(items@);
        self.word(items.len() as u32);
        let ghost h1 = self.state;
        let mut i: usize = 0;
        while i < items.len()
            invariant
                i <= items@.len(),
                ws == action_words(items@),
                h1 == fnv(h0, le_bytes(items@.len() as u32)),
                self.state == fnv(h1, words(ws.take(i as int))),
            decreases items@.len() - i,
        {
            let ghost before = self.state;
            let ghost wi = words(ws.take(i as int));
            assert(ws.take(i as int + 1).drop_last() =~= ws.take(i as int));
            assert(ws.take(i as int + 1).last() == items@[i as int].0);
            self.word(items[i].0);
            proof {
                lemma_fnv_concat(h1, wi, le_bytes(items@[i as int].0));
            }
            i = i + 1;
        }
        proof {
            assert(ws.take(items@.len() as int) =~= ws);
            lemma_fnv_concat(h0, le_bytes(items@.len() as u32), words(ws));
        }
    }

    pub fn finish(&self) -> (r: u64)
        ensures
            r == self.spec_state(),
    {
        self.state
    }
}

} // verus!
