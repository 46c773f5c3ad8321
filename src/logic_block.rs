use vstd::prelude::*;

verus! {

/// Mask of a block that is never on.
pub const ROCK: u8 = 0b00000;

/// Mask of a block that is always on.
pub const LAMP: u8 = 0b11111;

/// Whether bit `k` of the truth-table mask `mask` is set.
pub open spec fn mask_bit(mask: u8, k: u8) -> bool {
    k < 8 && (mask >> k) & 1u8 == 1u8
}

/// A threshold gate whose state fits in one byte: the count of on parents in
/// the high three bits and the five-bit truth-table mask in the low five.
#[derive(Debug)]
pub struct LogicBlock {
    data: u8,
    pub children: Vec<u32>,
}

impl LogicBlock {
    /// Current count of on parents.
    pub closed spec fn value(&self) -> u8 {
        self.data >> 5u8
    }

    /// The five-bit truth table.
    pub closed spec fn requirements(&self) -> u8 {
        self.data & 0b11111u8
    }

    /// The children, in the order their edges were declared.
    pub closed spec fn children_view(&self) -> Seq<u32> {
        self.children@
    }

    /// The count never exceeds the four parents that the mask can tell apart.
    #[verifier::type_invariant]
    pub closed spec fn wf(&self) -> bool {
        self.data >> 5u8 < 5
    }

    /// The same block with its count set to `v`.
    pub closed spec fn with_value(self, v: u8) -> LogicBlock {
        LogicBlock { data: self.data & 0b00011111u8 | v << 5u8, children: self.children }
    }

    /// The same block with its mask set to `m`.
    pub closed spec fn with_requirements(self, m: u8) -> LogicBlock {
        LogicBlock { data: self.data & 0b11100000u8 | m, children: self.children }
    }

    /// The block is on iff bit `value` of its mask is set.
    pub open spec fn spec_is_on(&self) -> bool {
        mask_bit(self.requirements(), self.value())
    }

    /// What `with_value` and `with_requirements` change, and what they keep.
    pub proof fn lemma_with(self, v: u8, m: u8)
        ensures
            self.value() < 8,
            v < 8 ==> self.with_value(v).value() == v,
            self.with_value(v).requirements() == self.requirements(),
            self.with_value(v).children_view() == self.children_view(),
            m < 32 ==> self.with_requirements(m).value() == self.value(),
            m < 32 ==> self.with_requirements(m).requirements() == m,
            self.with_requirements(m).children_view() == self.children_view(),
    {
        let d = self.data;
        assert(d >> 5u8 < 8) by (bit_vector);
        assert(v < 8 ==> ((d & 0b00011111u8 | v << 5u8) >> 5u8) == v) by (bit_vector);
        assert(((d & 0b00011111u8 | v << 5u8) & 0b11111u8) == (d & 0b11111u8)) by (bit_vector);
        assert(m < 32 ==> ((d & 0b11100000u8 | m) >> 5u8) == (d >> 5u8)) by (bit_vector);
        assert(m < 32 ==> ((d & 0b11100000u8 | m) & 0b11111u8) == m) by (bit_vector);
    }

    /// A block with mask `requirements`, no on parent counted yet.
    pub fn new(requirements: u8, children: Vec<u32>) -> (r: Self)
        requires
            requirements < 32,
        ensures
            r.value() == 0,
            r.requirements() == requirements,
            r.children_view() == children@,
    {
        assert((requirements >> 5u8) == 0u8 && (requirements & 0b11111u8) == requirements)
            by (bit_vector)
            requires
                requirements < 32,
        ;
        LogicBlock { data: requirements, children }
    }

    /// The count of on parents.
    pub fn get_value(&self) -> (r: u8)
        ensures
            r == self.value(),
            r < 5,
    {
        proof {
            use_type_invariant(self);
        }
        self.data >> 5
    }

    /// Sets the count of on parents.
    pub fn set_value(&mut self, value: u8)
        requires
            value < 5,
        ensures
            *final(self) == old(self).with_value(value),
            final(self).value() == value,
            final(self).requirements() == old(self).requirements(),
            final(self).children_view() == old(self).children_view(),
    {
        let d = self.data;
        let nd = d & 0b00011111 | value << 5;
        assert((nd >> 5u8) == value && (nd & 0b11111u8) == (d & 0b11111u8)) by (bit_vector)
            requires
                value < 5,
                nd == d & 0b00011111u8 | value << 5u8,
        ;
        self.data = nd;
    }

    /// The truth-table mask.
    pub fn get_requirements(&self) -> (r: u8)
        ensures
            r == self.requirements(),
            r < 32,
    {
        let d = self.data;
        assert(d & 0b11111u8 < 32) by (bit_vector);
        d & 0b11111
    }

    /// Sets the truth-table mask.
    pub fn set_requirements(&mut self, value: u8)
        requires
            value < 32,
        ensures
            *final(self) == old(self).with_requirements(value),
            final(self).requirements() == value,
            final(self).value() == old(self).value(),
            final(self).children_view() == old(self).children_view(),
    {
        proof {
            use_type_invariant(&*self);
        }
        let d = self.data;
        let nd = d & 0b11100000 | value;
        assert((nd >> 5u8) == (d >> 5u8) && (nd & 0b11111u8) == value) by (bit_vector)
            requires
                value < 32,
                nd == d & 0b11100000u8 | value,
        ;
        self.data = nd;
    }

    /// Whether bit `value` of the mask is set.
    pub fn is_on(&self) -> (r: bool)
        ensures
            r == self.spec_is_on(),
    {
        let v = self.get_value();
        let m = self.get_requirements();
        let r = 1u8 << v & m != 0;
        assert(r == mask_bit(m, v)) by (bit_vector)
            requires
                v < 5,
                r == (1u8 << v & m != 0),
        ;
        r
    }

    /// The children, in order.
    pub fn get_children(&self) -> (r: &Vec<u32>)
        ensures
            r@ == self.children_view(),
    {
        &self.children
    }

    /// Appends one child.
    pub fn push_child(&mut self, child: u32)
        ensures
            final(self).children_view() == old(self).children_view().push(child),
            final(self).value() == old(self).value(),
            final(self).requirements() == old(self).requirements(),
    {
        proof {
            use_type_invariant(&*self);
        }
        assert((0u8 >> 5u8) < 5) by (bit_vector);
        let mut tmp = LogicBlock { data: 0, children: Vec::new() };
        std::mem::swap(self, &mut tmp);
        let LogicBlock { data, mut children } = tmp;
        children.push(child);
        *self = LogicBlock { data, children };
    }

    /// Turns the block into a lamp: on whatever its parents.
    pub fn turn_to_lamp(&mut self)
        ensures
            *final(self) == old(self).with_requirements(LAMP),
            final(self).requirements() == LAMP,
            final(self).value() == old(self).value(),
            final(self).children_view() == old(self).children_view(),
            final(self).spec_is_on(),
    {
        self.set_requirements(LAMP);
        proof {
            use_type_invariant(&*self);
        }
        let ghost v = self.value();
        assert(v < 5 ==> mask_bit(0b11111u8, v)) by (bit_vector);
    }

    /// Turns the block into a rock: off whatever its parents.
    pub fn turn_to_rock(&mut self)
        ensures
            *final(self) == old(self).with_requirements(ROCK),
            final(self).requirements() == ROCK,
            final(self).value() == old(self).value(),
            final(self).children_view() == old(self).children_view(),
            !final(self).spec_is_on(),
    {
        self.set_requirements(ROCK);
        let ghost v = self.value();
        assert(!mask_bit(0u8, v)) by (bit_vector);
    }
}

} // verus!
