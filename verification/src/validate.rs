//! The checks that a netlist has to pass before it is written out.

use vstd::prelude::*;

use crate::circuit::{identifier_views, nets_named, Identifier, IdentifierView, Instantiable};
use crate::error::{Error, ErrorView};
use crate::netlist::{Netlist, NetlistView, Object};

verus! {

/// Whether the name at place `k` stands at an earlier place too.
pub open spec fn occurs_before(names: Seq<IdentifierView>, k: int) -> bool {
    exists|j: int| 0 <= j < k && #[trigger] names[j] == names[k]
}

/// The names among the first `n` that stand at an earlier place too, in order.
pub open spec fn repeats_upto(names: Seq<IdentifierView>, n: int) -> Seq<IdentifierView>
    decreases n,
{
    if n <= 0 {
        Seq::empty()
    } else if occurs_before(names, n - 1) {
        repeats_upto(names, n - 1).push(names[n - 1])
    } else {
        repeats_upto(names, n - 1)
    }
}

/// The names that stand at an earlier place too, in order: a name that occurs three times
/// is listed twice.
pub open spec fn repeats(names: Seq<IdentifierView>) -> Seq<IdentifierView> {
    repeats_upto(names, names.len() as int)
}

/// Whether no name occurs twice.
pub open spec fn all_distinct(names: Seq<IdentifierView>) -> bool {
    forall|j: int, k: int| 0 <= j < k < names.len() ==> names[j] != names[k]
}

/// No name is repeated exactly if no name occurs twice.
pub proof fn lemma_repeats(names: Seq<IdentifierView>, n: int)
    requires
        0 <= n <= names.len(),
    ensures
        repeats_upto(names, n).len() == 0 <==> forall|j: int, k: int|
            0 <= j < k < n ==> names[j] != names[k],
    decreases n,
{
    if n > 0 {
        lemma_repeats(names, n - 1);
        if repeats_upto(names, n).len() == 0 {
            assert(!occurs_before(names, n - 1));
        }
    }
}

impl<I> NetlistView<I> {
    /// The names under which the outputs are exposed, in the order of exposure.
    pub open spec fn output_names(self) -> Seq<IdentifierView> {
        Seq::new(self.outputs.len(), |k: int| self.outputs[k].name)
    }

    /// The names of the instances in the first `n` slots, in the order of insertion.
    pub open spec fn instance_names_upto(self, n: int) -> Seq<IdentifierView>
        decreases n,
    {
        if n <= 0 {
            Seq::empty()
        } else if self.is_instance(n - 1) {
            self.instance_names_upto(n - 1).push(self.instance(n - 1).id)
        } else {
            self.instance_names_upto(n - 1)
        }
    }

    /// The names of the instances, in the order of insertion.
    pub open spec fn instance_names(self) -> Seq<IdentifierView> {
        self.instance_names_upto(self.slots.len() as int)
    }

    /// The first of the three checks that the netlist does not pass, if there is one. In
    /// this order: no output name is repeated; no instance name is repeated; there is an
    /// output.
    pub open spec fn verify_error(self) -> Option<ErrorView> {
        if repeats(self.output_names()).len() > 0 {
            Some(ErrorView::NonuniqueNets(repeats(self.output_names())))
        } else if repeats(self.instance_names()).len() > 0 {
            Some(ErrorView::NonuniqueInsts(repeats(self.instance_names())))
        } else if self.outputs.len() == 0 {
            Some(ErrorView::NoOutputs)
        } else {
            None
        }
    }

    /// A netlist without outputs fails the checks for that reason, provided that the
    /// names of its instances are distinct. Repeated instance names are found first.
    pub proof fn lemma_no_outputs(self)
        requires
            self.outputs.len() == 0,
            all_distinct(self.instance_names()),
        ensures
            self.verify_error() == Some(ErrorView::NoOutputs),
    {
        lemma_repeats(self.instance_names(), self.instance_names().len() as int);
        assert(self.output_names() =~= Seq::empty());
    }

    /// A netlist passes the checks exactly if its output names are distinct, its instance
    /// names are distinct, and it has an output.
    pub proof fn lemma_verify(self)
        ensures
            self.verify_error() is None <==> all_distinct(self.output_names()) && all_distinct(
                self.instance_names(),
            ) && self.outputs.len() > 0,
    {
        lemma_repeats(self.instance_names(), self.instance_names().len() as int);
        lemma_repeats(self.output_names(), self.output_names().len() as int);
    }
}

/// The names that stand at an earlier place too, in order.
pub fn find_repeats(names: &Vec<Identifier>) -> (r: Vec<Identifier>)
    ensures
        identifier_views(r@) == repeats(identifier_views(names@)),
{
    let ghost all = identifier_views(names@);
    let mut found: Vec<Identifier> = Vec::new();
    let mut k: usize = 0;
    while k < names.len()
        invariant
            k <= names.len(),
            all == identifier_views(names@),
            identifier_views(found@) == repeats_upto(all, k as int),
        decreases names.len() - k,
    {
        let mut seen = false;
        let mut j: usize = 0;
        while j < k
            invariant
                j <= k,
                k < names.len(),
                all == identifier_views(names@),
                seen == exists|i: int| 0 <= i < j && #[trigger] all[i] == all[k as int],
            decreases k - j,
        {
            if names[j] == names[k] {
                assert(all[j as int] == all[k as int]);
                seen = true;
            }
            j = j + 1;
        }
        if seen {
            let ghost before = identifier_views(found@);
            found.push(names[k].clone());
            assert(identifier_views(found@) =~= before.push(all[k as int]));
        }
        k = k + 1;
    }
    found
}

impl<I: Instantiable> Netlist<I> {
    /// The names under which the outputs are exposed, in the order of exposure.
    pub fn output_names(&self) -> (r: Vec<Identifier>)
        ensures
            identifier_views(r@) == self@.output_names(),
    {
        let mut names: Vec<Identifier> = Vec::new();
        let mut k: usize = 0;
        while k < self.output_count()
            invariant
                k <= self@.outputs.len(),
                identifier_views(names@) == self@.output_names().take(k as int),
            decreases self@.outputs.len() - k,
        {
            let ghost before = identifier_views(names@);
            names.push(self.get_exposed(k).get_name().clone());
            proof {
                assert(identifier_views(names@) =~= before.push(self@.outputs[k as int].name));
                assert(self@.output_names().take(k + 1) =~= self@.output_names().take(
                    k as int,
                ).push(self@.outputs[k as int].name));
            }
            k = k + 1;
        }
        proof {
            assert(self@.output_names().take(self@.outputs.len() as int) =~= self@.output_names());
        }
        names
    }

    /// The names of the instances, in the order of insertion.
    pub fn instance_names(&self) -> (r: Vec<Identifier>)
        ensures
            identifier_views(r@) == self@.instance_names(),
    {
        let mut names: Vec<Identifier> = Vec::new();
        let mut i: usize = 0;
        while i < self.slot_count()
            invariant
                i <= self@.slots.len(),
                identifier_views(names@) == self@.instance_names_upto(i as int),
            decreases self@.slots.len() - i,
        {
            match self.get_object(i) {
                Some(Object::Instance(instance)) => {
                    let ghost before = identifier_views(names@);
                    names.push(instance.get_instance_name().clone());
                    assert(identifier_views(names@) =~= before.push(self@.instance(i as int).id));
                },
                _ => {},
            }
            i = i + 1;
        }
        names
    }

    /// Checks the netlist, and reports the first check that it does not pass. In this
    /// order: no output name is repeated; no instance name is repeated; there is an
    /// output. The netlist is left as it is.
    pub fn verify(&self) -> (r: Result<(), Error>)
        ensures
            match self@.verify_error() {
                Some(error) => r matches Err(e) && e@ == error,
                None => r is Ok,
            },
    {
        let outputs = find_repeats(&self.output_names());
        if outputs.len() > 0 {
            return Err(Error::NonuniqueNets(nets_named(&outputs)));
        }
        let instances = find_repeats(&self.instance_names());
        if instances.len() > 0 {
            return Err(Error::NonuniqueInsts(instances));
        }
        if self.output_count() == 0 {
            return Err(Error::NoOutputs);
        }
        Ok(())
    }
}

} // verus!
