//! The declared component types, queries and action properties.
use vstd::prelude::*;
use crate::ComponentType;

verus! {

/// Largest number of component types (or action properties) a schema may declare.
pub const MAX_TYPES: usize = 0x1000_0000;

/// Whether a list of queries is well formed over `n` component types: each
/// query lists at least one component, and only declared ones.
pub open spec fn valid_queries(n: nat, queries: Seq<Seq<usize>>) -> bool {
    forall|q: int|
        0 <= q < queries.len() ==> {
            &&& (#[trigger] queries[q]).len() > 0
            &&& forall|k: int| 0 <= k < queries[q].len() ==> (#[trigger] queries[q][k]) < n
        }
}

/// The index of the first of `names` equal to `w`, if any.
pub open spec fn first_index(names: Seq<Seq<char>>, w: Seq<char>, i: int) -> bool {
    &&& 0 <= i < names.len()
    &&& names[i] == w
    &&& forall|j: int| 0 <= j < i ==> names[j] != w
}

/// Whether `w` is one of `names`.
pub open spec fn has_name(names: Seq<Seq<char>>, w: Seq<char>) -> bool {
    exists|i: int| 0 <= i < names.len() && names[i] == w
}

/// The dense indices of the component names `query`, where component type
/// `i` is called `names[i]`: for each name, the first position that bears it.
/// `None` where some name of `query` is not among `names`.
pub fn resolve_names(names: &Vec<String>, query: &Vec<String>) -> (r: Option<Vec<ComponentType>>)
    ensures
        r is Some <==> forall|k: int| 0 <= k < query@.len() ==> has_name(names@.map_values(|n: String| n@), #[trigger] query@[k]@),
        r matches Some(ix) ==> ix@.len() == query@.len() && forall|k: int|
            0 <= k < query@.len() ==> first_index(names@.map_values(|n: String| n@), query@[k]@, #[trigger] ix@[k] as int),
{
    let ghost ns = names@.map_values(|n: String| n@);
    let mut ix: Vec<ComponentType> = Vec::new();
    let mut k: usize = 0;
    while k < query.len()
        invariant
            ns == names@.map_values(|n: String| n@),
            k <= query@.len(),
            ix@.len() == k,
            forall|j: int| 0 <= j < k ==> first_index(ns, query@[j]@, #[trigger] ix@[j] as int),
        decreases query@.len() - k,
    {
        let mut i: usize = 0;
        let mut found = false;
        while i < names.len() && !found
            invariant
                ns == names@.map_values(|n: String| n@),
                k < query@.len(),
                i <= names@.len(),
                found ==> i > 0 && names@[i - 1]@ == query@[k as int]@,
                forall|j: int| 0 <= j < (if found { i - 1 } else { i as int }) ==> names@[j]@ != query@[k as int]@,
            decreases names@.len() - i + if found { 0int } else { 1int },
        {
            if names[i] == query[k] {
                found = true;
            }
            i = i + 1;
        }
        if !found {
            assert forall|j: int| 0 <= j < ns.len() implies ns[j] != query@[k as int]@ by {
                assert(ns[j] == names@[j]@);
            }
            assert(!has_name(ns, query@[k as int]@));
            return None;
        }
        ix.push(i - 1);
        assert(first_index(ns, query@[k as int]@, (i - 1) as int));
        k = k + 1;
    }
    proof {
        assert forall|j: int| 0 <= j < query@.len() implies has_name(ns, #[trigger] query@[j]@) by {
            assert(first_index(ns, query@[j]@, ix@[j] as int));
        }
    }
    Some(ix)
}

/// The materialised schema: for each component type (by dense index) whether
/// it is a flag, each query's required components in order, and for each
/// action property whether it is a flag.
pub struct Schema {
    is_flag: Vec<bool>,
    queries: Vec<Vec<ComponentType>>,
    property_is_flag: Vec<bool>,
}

impl Schema {
    pub closed spec fn flags(&self) -> Seq<bool> {
        self.is_flag@
    }

    pub closed spec fn query_list(&self) -> Seq<Seq<usize>> {
        self.queries@.map_values(|q: Vec<usize>| q@)
    }

    pub closed spec fn property_flags(&self) -> Seq<bool> {
        self.property_is_flag@
    }

    pub open spec fn valid(&self) -> bool {
        &&& self.flags().len() <= MAX_TYPES
        &&& self.property_flags().len() <= MAX_TYPES
        &&& valid_queries(self.flags().len(), self.query_list())
    }

    /// A schema from its declarations, or `None` where a query is empty, names
    /// an undeclared component type, or there are more than `MAX_TYPES`
    /// component types or action properties.
    pub fn new(is_flag: Vec<bool>, queries: Vec<Vec<ComponentType>>, property_is_flag: Vec<bool>) -> (r: Option<Schema>)
        ensures
            r is Some <==> (is_flag@.len() <= MAX_TYPES && property_is_flag@.len() <= MAX_TYPES
                && valid_queries(is_flag@.len(), queries@.map_values(|q: Vec<usize>| q@))),
            r matches Some(s) ==> s.flags() == is_flag@ && s.query_list() == queries@.map_values(
                |q: Vec<usize>| q@,
            ) && s.property_flags() == property_is_flag@,
    {
        let ghost qs = queries@.map_values(|q: Vec<usize>| q@);
        if is_flag.len() > MAX_TYPES || property_is_flag.len() > MAX_TYPES {
            return None;
        }
        let n = is_flag.len();
        let mut q: usize = 0;
        while q < queries.len()
            invariant
                n == is_flag@.len(),
                qs == queries@.map_values(|q: Vec<usize>| q@),
                q <= queries@.len(),
                valid_queries(n as nat, qs.subrange(0, q as int)),
            decreases queries@.len() - q,
        {
            let cs = &queries[q];
            if cs.len() == 0 {
                assert(qs[q as int].len() == 0);
                assert(!valid_queries(n as nat, qs));
                return None;
            }
            let mut k: usize = 0;
            while k < cs.len()
                invariant
                    n == is_flag@.len(),
                    q < queries@.len(),
                    qs == queries@.map_values(|q: Vec<usize>| q@),
                    cs@ == qs[q as int],
                    k <= cs@.len(),
                    forall|j: int| 0 <= j < k ==> cs@[j] < n,
                decreases cs@.len() - k,
            {
                if cs[k] >= n {
                    assert(!valid_queries(n as nat, qs)) by {
                        assert(qs[q as int][k as int] >= n);
                    }
                    return None;
                }
                k = k + 1;
            }
            assert(qs.subrange(0, q + 1) == qs.subrange(0, q as int).push(qs[q as int]));
            q = q + 1;
        }
        assert(qs.subrange(0, q as int) == qs);
        Some(Schema { is_flag, queries, property_is_flag })
    }

    /// Number of component types.
    pub fn num_components(&self) -> (r: usize)
        ensures
            r == self.flags().len(),
    {
        self.is_flag.len()
    }

    /// Number of declared queries.
    pub fn num_queries(&self) -> (r: usize)
        ensures
            r == self.query_list().len(),
    {
        self.queries.len()
    }

    /// Number of action properties.
    pub fn num_properties(&self) -> (r: usize)
        ensures
            r == self.property_flags().len(),
    {
        self.property_is_flag.len()
    }

    /// Whether component type `c` is a flag.
    pub fn is_flag(&self, c: ComponentType) -> (r: bool)
        requires
            c < self.flags().len(),
        ensures
            r == self.flags()[c as int],
    {
        self.is_flag[c]
    }

    /// Whether action property `p` is a flag.
    pub fn property_is_flag(&self, p: usize) -> (r: bool)
        requires
            p < self.property_flags().len(),
        ensures
            r == self.property_flags()[p as int],
    {
        self.property_is_flag[p]
    }

    /// The components that query `q` requires, in declaration order.
    pub fn query(&self, q: usize) -> (r: &Vec<ComponentType>)
        requires
            q < self.query_list().len(),
        ensures
            r@ == self.query_list()[q as int],
    {
        &self.queries[q]
    }
}

} // verus!
