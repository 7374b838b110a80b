use vstd::prelude::*;
use crate::tagged::{MaybeTagged, NULL, TAG_MASK};

verus! {

/// Number of bits that a tower height below `HEIGHT` needs.
pub const HEIGHT_BITS: usize = 5;

/// Greatest height of a tower; the head always has this height.
pub const HEIGHT: usize = 32;

/// Selects the height field of a state word.
pub const HEIGHT_MASK: u32 = 63;

/// Position of the lowest bit of the reference count in a state word.
pub const REFS_SHIFT: u32 = 6;

/// The value that one reference adds to a state word.
pub const REFS_UNIT: u32 = 64;

/// Greatest reference count that a state word can hold.
pub const REFS_MAX: usize = 0x1ff_ffff;

/// Selects the removed flag, the top bit of a state word.
pub const REMOVED_MASK: u32 = 0x8000_0000;

/// Height field of a state word: the low six bits.
pub open spec fn word_height(w: u32) -> usize {
    (w % 64) as usize
}

/// Reference count of a state word: the bits between height and flag.
pub open spec fn word_refs(w: u32) -> usize {
    ((w % 0x8000_0000) / 64) as usize
}

/// Removed flag of a state word: its top bit.
pub open spec fn word_removed(w: u32) -> bool {
    w >= 0x8000_0000
}

/// The constants fit together: the greatest height takes `HEIGHT_BITS + 1`
/// bits, which the height mask selects; the count starts right above them
/// and ends below the flag.
pub proof fn law_layout()
    ensures
        HEIGHT == 1usize << HEIGHT_BITS,
        HEIGHT_MASK == (1u32 << 6) - 1,
        REFS_SHIFT == HEIGHT_BITS + 1,
        REFS_UNIT == 1u32 << REFS_SHIFT,
        REMOVED_MASK == 1u32 << 31,
        (REFS_MAX + 1) * REFS_UNIT == REMOVED_MASK,
{
    assert(32usize == 1usize << 5) by (bit_vector);
    assert(63u32 == (1u32 << 6) - 1) by (bit_vector);
    assert(64u32 == 1u32 << 6) by (bit_vector);
    assert(0x8000_0000u32 == 1u32 << 31) by (bit_vector);
}

/// The tower of a node: one tagged cell per level, level 0 first.
#[derive(Debug)]
pub struct Levels {
    pub pointers: Vec<MaybeTagged>,
}

impl View for Levels {
    type V = Seq<(usize, usize)>;

    /// The (address, tag) pairs of the cells, level 0 first.
    open spec fn view(&self) -> Seq<(usize, usize)> {
        Seq::new(self.pointers@.len(), |i: int| self.pointers@[i]@)
    }
}

impl Levels {
    /// Number of bytes that the cells above level 0 take in a tower of the
    /// given height.
    pub fn get_size(height: usize) -> (size: usize)
        requires
            0 < height <= HEIGHT,
        ensures
            size == (usize::BITS / 8) * (height - 1),
    {
        assert(usize::BITS == 32 || usize::BITS == 64);
        let word: usize = (usize::BITS / 8) as usize;
        assert(word * (height - 1) <= 8 * 31) by (nonlinear_arith)
            requires
                0 <= word <= 8,
                0 <= height - 1 <= 31,
        ;
        word * (height - 1)
    }

    /// A tower of `height` cells, each null with tag 0.
    pub fn new(height: usize) -> (levels: Self)
        ensures
            levels@ == Seq::new(height as nat, |i: int| (NULL, 0usize)),
    {
        let mut pointers: Vec<MaybeTagged> = Vec::new();
        let mut i: usize = 0;
        while i < height
            invariant
                i <= height,
                pointers@.len() == i,
                forall|j: int| 0 <= j < i ==> (#[trigger] pointers@[j])@ == (NULL, 0usize),
            decreases height - i,
        {
            pointers.push(MaybeTagged::null());
            i += 1;
        }
        let levels = Levels { pointers };
        assert(levels@ =~= Seq::new(height as nat, |i: int| (NULL, 0usize)));
        levels
    }

    /// Number of cells.
    pub fn len(&self) -> (n: usize)
        ensures
            n == self@.len(),
    {
        self.pointers.len()
    }

    /// The cell of level `index`.
    pub fn index(&self, index: usize) -> (cell: &MaybeTagged)
        requires
            index < self@.len(),
        ensures
            cell@ == self@[index as int],
    {
        &self.pointers[index]
    }
}

/// The sentinel in front of every level. It has the greatest height, holds no
/// key and no value, and is never removed.
pub struct Head {
    pub levels: Levels,
}

impl Head {
    pub fn new() -> (head: Self)
        ensures
            head.levels@ == Seq::new(HEIGHT as nat, |i: int| (NULL, 0usize)),
    {
        Head { levels: Levels::new(HEIGHT) }
    }
}

/// Source of tower heights for new nodes.
pub trait GeneratesHeight: Sized {
    /// What one draw does: it takes the generator from `pre` to `post` and
    /// yields `height`.
    spec fn draws(pre: Self, post: Self, height: usize) -> bool;

    /// The generator is in a state to draw from.
    spec fn can_draw(&self) -> bool;

    fn gen_height(&mut self) -> (height: usize)
        requires
            old(self).can_draw(),
        ensures
            1 <= height <= HEIGHT,
            Self::draws(*old(self), *final(self), height),
    ;
}

/// One entry of the list: key, value, the packed state word and the tower.
///
/// The state word packs the height (low six bits), the reference count
/// (middle bits) and the removed flag (top bit).
#[derive(Debug)]
pub struct Node<K, V> {
    pub key: K,
    pub val: V,
    pub state: u32,
    pub levels: Levels,
}

impl<K, V> Node<K, V> {
    /// Number of valid tower cells.
    pub open spec fn spec_height(&self) -> usize {
        word_height(self.state)
    }

    /// Number of live links that lead to this node.
    pub open spec fn spec_refs(&self) -> usize {
        word_refs(self.state)
    }

    /// Whether the node has been logically deleted.
    pub open spec fn spec_removed(&self) -> bool {
        word_removed(self.state)
    }

    /// The height is in range and the tower has a cell for every level
    /// below it.
    pub open spec fn wf(&self) -> bool {
        &&& 1 <= self.spec_height() <= HEIGHT
        &&& self.spec_height() <= self.levels@.len()
    }

    /// The tag of the cell at `level`.
    pub open spec fn tag(&self, level: int) -> usize {
        self.levels@[level].1
    }

    /// The address in the cell at `level`.
    pub open spec fn next(&self, level: int) -> usize {
        self.levels@[level].0
    }

    /// A node of the given height that nothing links to yet: reference count
    /// 0, not removed, every cell null.
    pub fn new(key: K, val: V, height: usize) -> (node: Self)
        requires
            0 < height <= HEIGHT,
        ensures
            node.key == key,
            node.val == val,
            node.spec_height() == height,
            node.spec_refs() == 0,
            !node.spec_removed(),
            node.levels@ == Seq::new(height as nat, |i: int| (NULL, 0usize)),
            node.wf(),
    {
        Node { key, val, state: height as u32, levels: Levels::new(height) }
    }

    /// A node whose height is drawn from `list`.
    pub fn new_rand_height<G: GeneratesHeight>(key: K, val: V, list: &mut G) -> (node: Self)
        requires
            old(list).can_draw(),
        ensures
            node.key == key,
            node.val == val,
            G::draws(*old(list), *final(list), node.spec_height()),
            node.spec_refs() == 0,
            !node.spec_removed(),
            node.levels@ == Seq::new(node.spec_height() as nat, |i: int| (NULL, 0usize)),
            node.wf(),
    {
        let height = list.gen_height();
        Self::new(key, val, height)
    }

    #[verifier::when_used_as_spec(spec_height)]
    pub fn height(&self) -> (h: usize)
        ensures
            h == self.spec_height(),
            h <= HEIGHT_MASK,
    {
        let w: u32 = self.state;
        assert(w & 63 == w % 64) by (bit_vector);
        (w & HEIGHT_MASK) as usize
    }

    #[verifier::when_used_as_spec(spec_refs)]
    pub fn refs(&self) -> (c: usize)
        ensures
            c == self.spec_refs(),
            c <= REFS_MAX,
    {
        let w: u32 = self.state;
        assert((w & !0x8000_0000u32) >> 6 == (w % 0x8000_0000) / 64) by (bit_vector);
        ((w & !REMOVED_MASK) >> REFS_SHIFT) as usize
    }

    #[verifier::when_used_as_spec(spec_removed)]
    pub fn removed(&self) -> (r: bool)
        ensures
            r == self.spec_removed(),
    {
        let w: u32 = self.state;
        assert((w & 0x8000_0000u32 != 0) == (w >= 0x8000_0000)) by (bit_vector);
        (w & REMOVED_MASK) != 0
    }

    /// Adds one reference and returns the count before.
    pub fn add_ref(&mut self) -> (before: usize)
        requires
            old(self).spec_refs() < REFS_MAX,
        ensures
            before == old(self).spec_refs(),
            final(self).spec_refs() == before + 1,
            final(self).spec_height() == old(self).spec_height(),
            final(self).spec_removed() == old(self).spec_removed(),
            final(self).key == old(self).key,
            final(self).val == old(self).val,
            final(self).levels == old(self).levels,
    {
        let before = self.refs();
        let w: u32 = self.state;
        assert((w % 0x8000_0000u32) / 64u32 < 0x1ff_ffffu32 ==> w <= 0xffff_ffffu32 - 64u32 && ((w
            + 64u32) as u32) % 64u32 == w % 64u32 && (((w + 64u32) as u32) % 0x8000_0000u32)
            / 64u32 == ((w % 0x8000_0000u32) / 64u32 + 1u32) as u32 && (((w + 64u32) as u32)
            >= 0x8000_0000u32) == (w >= 0x8000_0000u32)) by (bit_vector);
        self.state = w + REFS_UNIT;
        before
    }

    /// Adds one reference unless the count is 0: a node that nothing links to
    /// any more is not brought back. `Ok` carries the new count.
    pub fn try_add_ref(&mut self) -> (r: Result<usize, ()>)
        requires
            old(self).spec_refs() < REFS_MAX,
        ensures
            old(self).spec_refs() == 0 ==> r.is_err() && *final(self) == *old(self),
            old(self).spec_refs() > 0 ==> r == Ok::<usize, ()>((old(self).spec_refs() + 1) as usize)
                && final(self).spec_refs() == old(self).spec_refs() + 1,
            final(self).spec_height() == old(self).spec_height(),
            final(self).spec_removed() == old(self).spec_removed(),
            final(self).key == old(self).key,
            final(self).val == old(self).val,
            final(self).levels == old(self).levels,
    {
        if self.refs() == 0 {
            Err(())
        } else {
            let before = self.add_ref();
            Ok(before + 1)
        }
    }

    /// Takes one reference away and returns the count before.
    pub fn sub_ref(&mut self) -> (before: usize)
        requires
            old(self).spec_refs() > 0,
        ensures
            before == old(self).spec_refs(),
            final(self).spec_refs() == before - 1,
            final(self).spec_height() == old(self).spec_height(),
            final(self).spec_removed() == old(self).spec_removed(),
            final(self).key == old(self).key,
            final(self).val == old(self).val,
            final(self).levels == old(self).levels,
    {
        let before = self.refs();
        let w: u32 = self.state;
        assert((w % 0x8000_0000u32) / 64u32 > 0u32 ==> w >= 64u32 && ((w - 64u32) as u32) % 64u32
            == w % 64u32 && (((w - 64u32) as u32) % 0x8000_0000u32) / 64u32 == ((w
            % 0x8000_0000u32) / 64u32 - 1u32) as u32 && (((w - 64u32) as u32) >= 0x8000_0000u32)
            == (w >= 0x8000_0000u32)) by (bit_vector);
        self.state = w - REFS_UNIT;
        before
    }

    /// Takes one reference away unless the count is 0 already. `Ok` carries
    /// the new count.
    pub fn try_sub_ref(&mut self) -> (r: Result<usize, ()>)
        ensures
            old(self).spec_refs() == 0 ==> r.is_err() && *final(self) == *old(self),
            old(self).spec_refs() > 0 ==> r == Ok::<usize, ()>((old(self).spec_refs() - 1) as usize)
                && final(self).spec_refs() == old(self).spec_refs() - 1,
            final(self).spec_height() == old(self).spec_height(),
            final(self).spec_removed() == old(self).spec_removed(),
            final(self).key == old(self).key,
            final(self).val == old(self).val,
            final(self).levels == old(self).levels,
    {
        if self.refs() == 0 {
            Err(())
        } else {
            let before = self.sub_ref();
            Ok(before - 1)
        }
    }

    /// Replaces the state word `w` by `f(w)` in one compare-and-swap. Fails,
    /// and changes nothing, when `f` maps the word to itself. `Ok` carries the
    /// word before.
    pub fn set_har_with<F>(&mut self, f: F) -> (r: Result<u32, ()>) where F: Fn(u32) -> u32
        requires
            call_requires(f, (old(self).state,)),
        ensures
            call_ensures(f, (old(self).state,), final(self).state),
            r.is_ok() <==> final(self).state != old(self).state,
            r.is_ok() ==> r == Ok::<u32, ()>(old(self).state),
            final(self).key == old(self).key,
            final(self).val == old(self).val,
            final(self).levels == old(self).levels,
    {
        let height_and_removed: u32 = self.state;
        let new_height_and_removed: u32 = f(height_and_removed);
        if new_height_and_removed == height_and_removed {
            return Err(());
        }
        self.state = new_height_and_removed;
        Ok(height_and_removed)
    }

    /// Sets the removed flag. Fails when it is set already: the flag goes
    /// from clear to set at most once. `Ok` carries the state word before.
    pub fn set_removed(&mut self) -> (r: Result<u32, ()>)
        ensures
            old(self).spec_removed() ==> r.is_err() && *final(self) == *old(self),
            !old(self).spec_removed() ==> r == Ok::<u32, ()>(old(self).state),
            final(self).spec_removed(),
            final(self).spec_height() == old(self).spec_height(),
            final(self).spec_refs() == old(self).spec_refs(),
            final(self).key == old(self).key,
            final(self).val == old(self).val,
            final(self).levels == old(self).levels,
    {
        let mark = |w: u32| -> (m: u32)
            ensures
                m == w | 0x8000_0000u32,
            { w | REMOVED_MASK };
        let ghost w0 = self.state;
        assert((w0 | 0x8000_0000u32) % 64 == w0 % 64) by (bit_vector);
        assert(((w0 | 0x8000_0000u32) % 0x8000_0000) / 64 == (w0 % 0x8000_0000) / 64)
            by (bit_vector);
        assert((w0 | 0x8000_0000u32) >= 0x8000_0000) by (bit_vector);
        assert(w0 >= 0x8000_0000 ==> (w0 | 0x8000_0000u32) == w0) by (bit_vector);
        assert(w0 < 0x8000_0000 ==> (w0 | 0x8000_0000u32) != w0) by (bit_vector);
        self.set_har_with(mark)
    }

    /// Lowers the height field and leaves flag and count alone.
    pub fn set_height(&mut self, height: usize)
        requires
            height <= old(self).spec_height(),
        ensures
            final(self).spec_height() == height,
            final(self).spec_removed() == old(self).spec_removed(),
            final(self).spec_refs() == old(self).spec_refs(),
            final(self).key == old(self).key,
            final(self).val == old(self).val,
            final(self).levels == old(self).levels,
    {
        let old_height_and_removed: u32 = self.state;
        let h: u32 = height as u32;
        let new_height_and_removed: u32 = (old_height_and_removed & !HEIGHT_MASK) | h;
        assert(h <= 63 ==> ((old_height_and_removed & !63u32) | h) % 64 == h) by (bit_vector);
        assert(h <= 63 ==> (((old_height_and_removed & !63u32) | h) % 0x8000_0000) / 64 == (
        old_height_and_removed % 0x8000_0000) / 64) by (bit_vector);
        assert(h <= 63 ==> (((old_height_and_removed & !63u32) | h) >= 0x8000_0000) == (
        old_height_and_removed >= 0x8000_0000)) by (bit_vector);
        self.state = new_height_and_removed;
    }

    /// The highest level below `height` whose tag is not 0, if there is one.
    pub open spec fn top_tagged(levels: Seq<(usize, usize)>, height: int) -> Option<int>
        decreases height,
    {
        if height <= 0 {
            None
        } else if levels[height - 1].1 != 0 {
            Some(height - 1)
        } else {
            Self::top_tagged(levels, height - 1)
        }
    }

    /// The level from which `tag_levels` gets to tag: just above the highest
    /// tagged level, or 0 when no level is tagged.
    pub open spec fn tag_floor(levels: Seq<(usize, usize)>, height: int) -> int {
        match Self::top_tagged(levels, height) {
            None => 0,
            Some(level) => level + 1,
        }
    }

    /// The tower `levels` with the tag of every level in `lo..hi` set to `tag`.
    pub open spec fn retagged(levels: Seq<(usize, usize)>, lo: int, hi: int, tag: usize) -> Seq<
        (usize, usize),
    > {
        Seq::new(
            levels.len(),
            |i: int|
                if lo <= i < hi {
                    (levels[i].0, tag)
                } else {
                    levels[i]
                },
        )
    }

    /// Tags the cells from the top level down to level 0, each by a
    /// compare-and-swap of its tag from 0 to `tag`. Stops at the first cell
    /// that carries a tag already and reports its level; the cells above it
    /// stay tagged. `Ok` carries the top level.
    pub fn tag_levels(&mut self, tag: usize) -> (r: Result<usize, usize>)
        requires
            old(self).wf(),
            tag <= TAG_MASK,
        ensures
            final(self).state == old(self).state,
            final(self).key == old(self).key,
            final(self).val == old(self).val,
            match Self::top_tagged(old(self).levels@, old(self).spec_height() as int) {
                None => r == Ok::<usize, usize>((old(self).spec_height() - 1) as usize),
                Some(level) => 0 <= level < old(self).spec_height() && r == Err::<usize, usize>(
                    level as usize,
                ),
            },
            final(self).levels@ == Self::retagged(
                old(self).levels@,
                Self::tag_floor(old(self).levels@, old(self).spec_height() as int),
                old(self).spec_height() as int,
                tag,
            ),
    {
        let height = self.height();
        let mut level: usize = height;
        while level > 0
            invariant
                level <= height,
                height == old(self).spec_height(),
                height <= old(self).levels@.len(),
                tag <= TAG_MASK,
                self.state == old(self).state,
                self.key == old(self).key,
                self.val == old(self).val,
                Self::top_tagged(old(self).levels@, height as int) == Self::top_tagged(
                    old(self).levels@,
                    level as int,
                ),
                self.levels.pointers@.len() == old(self).levels.pointers@.len(),
                old(self).levels@.len() == old(self).levels.pointers@.len(),
                self.levels@ == Self::retagged(old(self).levels@, level as int, height as int, tag),
            decreases level,
        {
            let ghost before = self.levels@;
            assert(before.len() == self.levels.pointers@.len());
            assert(before[level - 1] == old(self).levels@[level - 1]);
            assert(self.levels.pointers@[level - 1]@ == before[level - 1]);
            let r = self.levels.pointers[level - 1].compare_exchange_tag(0, tag);
            assert(self.levels@.len() == before.len());
            assert(forall|i: int|
                0 <= i < before.len() && i != level - 1 ==> self.levels.pointers@[i]@
                    == #[trigger] before[i]);
            match r {
                Err(_) => {
                    assert(self.levels@ =~= before);
                    return Err(level - 1);
                },
                Ok(_) => {
                    let ghost goal = Self::retagged(
                        old(self).levels@,
                        level - 1,
                        height as int,
                        tag,
                    );
                    assert forall|i: int| 0 <= i < before.len() implies self.levels@[i]
                        == goal[i] by {
                        if i != level - 1 {
                            assert(self.levels.pointers@[i]@ == before[i]);
                        }
                    }
                    assert(self.levels@ =~= Self::retagged(
                        old(self).levels@,
                        level - 1,
                        height as int,
                        tag,
                    ));
                },
            }
            level -= 1;
        }
        Ok(height - 1)
    }

    /// Logical deletion in one step: sets the removed flag, then tags every
    /// level with 1 as `tag_levels` does. Fails, and changes nothing, when
    /// the flag was set already. Fails as well when a level carries a tag
    /// already: the flag is set then, and the levels above that one are
    /// tagged.
    pub fn try_remove_and_tag(&mut self) -> (r: Result<(), ()>)
        requires
            old(self).wf(),
        ensures
            final(self).key == old(self).key,
            final(self).val == old(self).val,
            final(self).spec_height() == old(self).spec_height(),
            final(self).spec_refs() == old(self).spec_refs(),
            r.is_ok() <==> !old(self).spec_removed() && Self::top_tagged(
                old(self).levels@,
                old(self).spec_height() as int,
            ).is_none(),
            old(self).spec_removed() ==> *final(self) == *old(self),
            !old(self).spec_removed() ==> final(self).spec_removed() && final(self).levels@
                == Self::retagged(
                old(self).levels@,
                Self::tag_floor(old(self).levels@, old(self).spec_height() as int),
                old(self).spec_height() as int,
                1,
            ),
    {
        if self.set_removed().is_err() {
            return Err(());
        }
        match self.tag_levels(1) {
            Ok(_) => Ok(()),
            Err(_) => Err(()),
        }
    }
}

} // verus!
