//! Function registries: how a function named on the wire is bound again to a
//! definition when an expression is read back.
use vstd::prelude::*;
use vstd::utf8::{encode_utf8, encode_utf8_decode_utf8};
use crate::expr::{DataType, FunctionDef, FunctionModel};

verus! {

/// A lookup table from function names to definitions. Where two entries share
/// a name, the first one counts.
pub struct FunctionRegistry {
    pub functions: Vec<FunctionDef>,
}

impl View for FunctionRegistry {
    type V = Seq<FunctionModel>;

    open spec fn view(&self) -> Seq<FunctionModel> {
        self.functions@.map_values(|f: FunctionDef| f@)
    }
}

/// The first entry of `reg` named `name`, if any.
pub open spec fn lookup(reg: Seq<FunctionModel>, name: Seq<char>) -> Option<FunctionModel>
    decreases reg.len(),
{
    if reg.len() == 0 {
        None
    } else if reg[0].name == name {
        Some(reg[0])
    } else {
        lookup(reg.drop_first(), name)
    }
}

/// The stand-in that a placeholder lookup gives for `name`: the same name,
/// no parameters, and a null result.
pub open spec fn stand_in(name: Seq<char>) -> FunctionModel {
    FunctionModel { name, arg_types: seq![], return_type: DataType::Null }
}

/// How a name is bound when an expression is read: by the registry, or, in a
/// placeholder lookup, to the stand-in of every name.
pub open spec fn resolve(reg: Seq<FunctionModel>, placeholder: bool, name: Seq<char>) -> Option<
    FunctionModel,
> {
    if placeholder {
        Some(stand_in(name))
    } else {
        lookup(reg, name)
    }
}

/// A name resolves to a definition of that name.
pub proof fn lemma_resolve_name(reg: Seq<FunctionModel>, placeholder: bool, name: Seq<char>)
    ensures
        resolve(reg, placeholder, name) matches Some(d) ==> d.name == name,
    decreases reg.len(),
{
    if !placeholder && reg.len() > 0 && reg[0].name != name {
        lemma_resolve_name(reg.drop_first(), placeholder, name);
    }
}

/// Whether two strings hold the same characters.
pub fn same_text(a: &str, b: &str) -> (r: bool)
    ensures
        r == (a@ == b@),
{
    let x = a.as_bytes();
    let y = b.as_bytes();
    proof {
        encode_utf8_decode_utf8(a@);
        encode_utf8_decode_utf8(b@);
    }
    if x.len() != y.len() {
        return false;
    }
    let mut i: usize = 0;
    while i < x.len()
        invariant
            x@.len() == y@.len(),
            i <= x@.len(),
            x@ == encode_utf8(a@),
            y@ == encode_utf8(b@),
            x@.subrange(0, i as int) == y@.subrange(0, i as int),
        decreases x@.len() - i,
    {
        if x[i] != y[i] {
            return false;
        }
        i = i + 1;
        assert(x@.subrange(0, i as int) =~= x@.subrange(0, i as int - 1).push(x@[i - 1]));
        assert(y@.subrange(0, i as int) =~= y@.subrange(0, i as int - 1).push(y@[i - 1]));
    }
    assert(x@ =~= x@.subrange(0, i as int));
    assert(y@ =~= y@.subrange(0, i as int));
    true
}

/// A copy of a function definition.
pub fn copy_def(d: &FunctionDef) -> (r: FunctionDef)
    ensures
        r@ == d@,
{
    let name = d.name.as_str().to_owned();
    let mut arg_types: Vec<DataType> = Vec::new();
    let mut i: usize = 0;
    while i < d.arg_types.len()
        invariant
            i <= d.arg_types@.len(),
            arg_types@ == d.arg_types@.subrange(0, i as int),
        decreases d.arg_types@.len() - i,
    {
        arg_types.push(d.arg_types[i]);
        i = i + 1;
        assert(arg_types@ =~= d.arg_types@.subrange(0, i as int));
    }
    assert(arg_types@ =~= d.arg_types@);
    FunctionDef { name, arg_types, return_type: d.return_type }
}

impl FunctionRegistry {
    /// A registry with no functions: every lookup misses.
    pub fn new() -> (r: FunctionRegistry)
        ensures
            r@ == Seq::<FunctionModel>::empty(),
    {
        let r = FunctionRegistry { functions: Vec::new() };
        assert(r@ =~= Seq::<FunctionModel>::empty());
        r
    }

    /// Adds `f` after the functions already held.
    pub fn register_udf(&mut self, f: FunctionDef)
        ensures
            final(self)@ == old(self)@.push(f@),
    {
        self.functions.push(f);
        assert(self@ =~= old(self)@.push(f@));
    }

    /// The names of the registered functions, in the order they were
    /// registered.
    pub fn udfs(&self) -> (r: Vec<String>)
        ensures
            r@.len() == self@.len(),
            forall|i: int| 0 <= i < r@.len() ==> #[trigger] r@[i]@ == self@[i].name,
    {
        let mut names: Vec<String> = Vec::new();
        let mut i: usize = 0;
        while i < self.functions.len()
            invariant
                i <= self@.len(),
                self@.len() == self.functions@.len(),
                names@.len() == i,
                forall|j: int| 0 <= j < i ==> #[trigger] names@[j]@ == self@[j].name,
            decreases self@.len() - i,
        {
            names.push(self.functions[i].name.as_str().to_owned());
            i = i + 1;
        }
        names
    }

    /// The definition registered under `name`: the first one of that name.
    pub fn udf(&self, name: &str) -> (r: Option<FunctionDef>)
        ensures
            r matches Some(d) ==> lookup(self@, name@) == Some(d@),
            r is None <==> lookup(self@, name@) is None,
    {
        let mut i: usize = 0;
        assert(self@.subrange(0, self@.len() as int) =~= self@);
        while i < self.functions.len()
            invariant
                i <= self@.len(),
                self@.len() == self.functions@.len(),
                lookup(self@, name@) == lookup(self@.subrange(i as int, self@.len() as int), name@),
            decreases self@.len() - i,
        {
            let f = &self.functions[i];
            let ghost tail = self@.subrange(i as int, self@.len() as int);
            assert(tail[0] == f@);
            assert(tail.drop_first() =~= self@.subrange(i + 1, self@.len() as int));
            if same_text(f.name.as_str(), name) {
                return Some(copy_def(f));
            }
            i = i + 1;
        }
        None
    }
}

/// Binds `name` as `resolve` says.
pub fn resolve_name(reg: &FunctionRegistry, placeholder: bool, name: &String) -> (r: Option<
    FunctionDef,
>)
    ensures
        r matches Some(d) ==> resolve(reg@, placeholder, name@) == Some(d@),
        r is None <==> resolve(reg@, placeholder, name@) is None,
{
    if placeholder {
        let d = FunctionDef {
            name: name.as_str().to_owned(),
            arg_types: Vec::new(),
            return_type: DataType::Null,
        };
        assert(d@.arg_types =~= Seq::<DataType>::empty());
        Some(d)
    } else {
        reg.udf(name.as_str())
    }
}

} // verus!
