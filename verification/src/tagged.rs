use vstd::prelude::*;

verus! {

/// Number of low bits of a word that carry the tag.
pub const TAG_BITS: usize = 2;

/// Mask that selects the tag bits of a word.
pub const TAG_MASK: usize = 3;

/// The null address.
pub const NULL: usize = 0;

/// An address is aligned when its tag bits are clear, so that a tag can be
/// stored in them.
pub open spec fn aligned(addr: usize) -> bool {
    addr % 4 == 0
}

/// One pointer-sized cell of a tower: a node address and a small tag
/// packed into a single word. The address occupies the high bits, the tag the
/// two low bits. Every comparison is made on the whole word, so an address
/// that carries a tag differs from the same address without one.
#[derive(Debug)]
pub struct MaybeTagged {
    pub word: usize,
}

impl View for MaybeTagged {
    type V = (usize, usize);

    /// The pair (address, tag) that the word holds.
    open spec fn view(&self) -> (usize, usize) {
        ((self.word - self.word % 4) as usize, self.word % 4)
    }
}

/// The tag mask selects the `TAG_BITS` low bits.
pub proof fn law_tag_mask()
    ensures
        TAG_MASK == (1usize << TAG_BITS) - 1,
{
    assert(3usize == (1usize << 2) - 1) by (bit_vector);
}

/// The word that packs `addr` and `tag`.
pub open spec fn pack(addr: usize, tag: usize) -> usize {
    (addr + tag) as usize
}

pub proof fn lemma_pack_view(addr: usize, tag: usize)
    requires
        aligned(addr),
        tag <= TAG_MASK,
    ensures
        (MaybeTagged { word: pack(addr, tag) })@ == (addr, tag),
        pack(addr, tag) == addr + tag,
        addr + tag <= usize::MAX,
{
    assert(addr % 4 == 0);
    assert(addr <= usize::MAX);
    assert(usize::MAX % 4 == 3) by {
        assert(usize::MAX == 0xffff_ffff || usize::MAX == 0xffff_ffff_ffff_ffff);
    }
}

impl MaybeTagged {
    /// A cell that holds the null address with tag 0.
    pub fn null() -> (r: Self)
        ensures
            r@ == (NULL, 0usize),
    {
        MaybeTagged { word: 0 }
    }

    fn split(word: usize) -> (r: (usize, usize))
        ensures
            r == (MaybeTagged { word })@,
            aligned(r.0),
            r.1 <= TAG_MASK,
    {
        let tag: usize = word & TAG_MASK;
        let addr: usize = word & !TAG_MASK;
        assert(word & 3 == word % 4) by (bit_vector);
        assert(word & !3usize == (word - word % 4) as usize) by (bit_vector);
        (addr, tag)
    }

    fn join(addr: usize, tag: usize) -> (r: usize)
        requires
            aligned(addr),
            tag <= TAG_MASK,
        ensures
            r == pack(addr, tag),
            (MaybeTagged { word: r })@ == (addr, tag),
    {
        proof {
            lemma_pack_view(addr, tag);
        }
        assert(addr % 4 == 0 && tag <= 3 ==> addr | tag == (addr + tag) as usize) by (bit_vector);
        addr | tag
    }

    /// The address, with the tag masked off.
    pub fn load_ptr(&self) -> (addr: usize)
        ensures
            addr == self@.0,
            aligned(addr),
    {
        Self::split(self.word).0
    }

    /// The tag.
    pub fn load_tag(&self) -> (tag: usize)
        ensures
            tag == self@.1,
            tag <= TAG_MASK,
    {
        Self::split(self.word).1
    }

    /// Address and tag, read together.
    pub fn load_decomposed(&self) -> (r: (usize, usize))
        ensures
            r == self@,
            aligned(r.0),
            r.1 <= TAG_MASK,
    {
        Self::split(self.word)
    }

    /// Stores `addr` with tag 0.
    pub fn store_ptr(&mut self, addr: usize)
        requires
            aligned(addr),
        ensures
            final(self)@ == (addr, 0usize),
    {
        self.word = Self::join(addr, 0);
    }

    /// Full compare-and-swap on address and tag: when the cell holds exactly
    /// (`expected_addr`, `expected_tag`) it is overwritten with
    /// (`new_addr`, `new_tag`) and the former content is returned as `Ok`;
    /// otherwise the cell is left alone and what it holds comes back as `Err`.
    pub fn compare_exchange_with_tag(
        &mut self,
        expected_addr: usize,
        expected_tag: usize,
        new_addr: usize,
        new_tag: usize,
    ) -> (r: Result<(usize, usize), (usize, usize)>)
        requires
            aligned(new_addr),
            new_tag <= TAG_MASK,
        ensures
            old(self)@ == (expected_addr, expected_tag)
                ==> r == Ok::<(usize, usize), (usize, usize)>(old(self)@) && final(self)@ == (
                new_addr,
                new_tag,
            ),
            old(self)@ != (expected_addr, expected_tag)
                ==> r == Err::<(usize, usize), (usize, usize)>(old(self)@)
                && *final(self) == *old(self),
    {
        let (addr, tag) = Self::split(self.word);
        if addr == expected_addr && tag == expected_tag {
            self.word = Self::join(new_addr, new_tag);
            Ok((addr, tag))
        } else {
            Err((addr, tag))
        }
    }

    /// Compare-and-swap of an untagged address: succeeds only when the cell
    /// holds (`expected_addr`, 0), and then writes (`new_addr`, 0).
    pub fn compare_exchange(&mut self, expected_addr: usize, new_addr: usize) -> (r: Result<
        (usize, usize),
        (usize, usize),
    >)
        requires
            aligned(new_addr),
        ensures
            old(self)@ == (expected_addr, 0usize)
                ==> r == Ok::<(usize, usize), (usize, usize)>(old(self)@) && final(self)@ == (
                new_addr,
                0usize,
            ),
            old(self)@ != (expected_addr, 0usize)
                ==> r == Err::<(usize, usize), (usize, usize)>(old(self)@)
                && *final(self) == *old(self),
    {
        self.compare_exchange_with_tag(expected_addr, 0, new_addr, 0)
    }

    /// Changes the tag and keeps the address: succeeds only when the cell's
    /// tag is `expected_tag`. `Ok` carries the former tag, `Err` the tag found.
    pub fn compare_exchange_tag(&mut self, expected_tag: usize, new_tag: usize) -> (r: Result<
        usize,
        usize,
    >)
        requires
            new_tag <= TAG_MASK,
        ensures
            old(self)@.1 == expected_tag ==> r == Ok::<usize, usize>(expected_tag) && final(self)@ == (
                old(self)@.0,
                new_tag,
            ),
            old(self)@.1 != expected_tag ==> r == Err::<usize, usize>(old(self)@.1)
                && *final(self) == *old(self),
    {
        let (addr, tag) = Self::split(self.word);
        if tag == expected_tag {
            self.word = Self::join(addr, new_tag);
            Ok(tag)
        } else {
            Err(tag)
        }
    }
}

} // verus!
