use vstd::prelude::*;

verus! {

/// A latch: it takes the state of `source` whenever it is visited while
/// `button_node` is on, and holds it otherwise.
#[derive(Debug)]
pub struct StoringBlock {
    pub is_on: bool,
    /// Node whose state is latched.
    pub source: u32,
    /// Node whose being on lets the latch take the state of `source`.
    pub button_node: u32,
    pub children: Vec<u32>,
}

impl StoringBlock {
    /// Appends `children` to the block's children, in order.
    pub fn set_children(&mut self, children: &Vec<u32>)
        ensures
            final(self).children@ == old(self).children@ + children@,
            final(self).is_on == old(self).is_on,
            final(self).source == old(self).source,
            final(self).button_node == old(self).button_node,
    {
        let mut i: usize = 0;
        while i < children.len()
            invariant
                i <= children@.len(),
                self.children@ == old(self).children@ + children@.subrange(0, i as int),
                self.is_on == old(self).is_on,
                self.source == old(self).source,
                self.button_node == old(self).button_node,
            decreases children@.len() - i,
        {
            self.children.push(children[i]);
            i = i + 1;
        }
        assert(children@.subrange(0, children@.len() as int) =~= children@);
    }

    /// A storing block with the given state and wiring.
    pub fn new(is_on: bool, source: u32, button_node: u32, children: Vec<u32>) -> (r: StoringBlock)
        ensures
            r.is_on == is_on,
            r.source == source,
            r.button_node == button_node,
            r.children == children,
    {
        StoringBlock { is_on, source, button_node, children }
    }
}

} // verus!
