//! Registry of the application modules that packets can be routed to.
use vstd::prelude::*;
use crate::identifier::ModuleId;

verus! {

/// The set of registered application modules, in registration order.
pub struct IbcRouter {
    routes: Vec<ModuleId>,
}

impl View for IbcRouter {
    type V = Seq<Seq<char>>;

    closed spec fn view(&self) -> Seq<Seq<char>> {
        self.routes@.map_values(|m: ModuleId| m@)
    }
}

impl IbcRouter {
    pub fn new() -> (r: IbcRouter)
        ensures
            r@ == Seq::<Seq<char>>::empty(),
    {
        let r = IbcRouter { routes: Vec::new() };
        assert(r@ =~= Seq::<Seq<char>>::empty());
        r
    }

    /// Whether a module is registered under `module_id`.
    pub fn has_route(&self, module_id: &ModuleId) -> (r: bool)
        ensures
            r == self@.contains(module_id@),
    {
        let mut i: usize = 0;
        while i < self.routes.len()
            invariant
                i <= self.routes@.len(),
                forall|j: int| 0 <= j < i ==> self@[j] != module_id@,
            decreases self.routes@.len() - i,
        {
            if self.routes[i].id.equals(&module_id.id) {
                assert(self@[i as int] == module_id@);
                return true;
            }
            i = i + 1;
        }
        false
    }

    /// Registers `module_id`; a module already registered is left as it is
    /// and `false` is returned.
    pub fn add_route(&mut self, module_id: ModuleId) -> (r: bool)
        ensures
            r == !old(self)@.contains(module_id@),
            final(self)@ == (if r {
                old(self)@.push(module_id@)
            } else {
                old(self)@
            }),
    {
        if self.has_route(&module_id) {
            false
        } else {
            let ghost m = module_id@;
            self.routes.push(module_id);
            assert(self@ =~= old(self)@.push(m));
            true
        }
    }
}

} // verus!
