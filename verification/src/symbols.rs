//! Kernel symbols by address.

use std::collections::BTreeMap;

use vstd::prelude::*;

use crate::text;

verus! {

/// Each address is less than every later one.
pub open spec fn ascending(addresses: Seq<u64>) -> bool {
    forall|i: int, j: int| 0 <= i < j < addresses.len() ==> addresses[i] < addresses[j]
}

/// The order in which a map hands out its keys is the order of the numbers.
proof fn lemma_increasing(addresses: Seq<&u64>)
    requires
        vstd::std_specs::btree::increasing_seq(addresses),
    ensures
        ascending(addresses.unref()),
{
    broadcast use {
        vstd::std_specs::btree::group_btree_axioms,
        vstd::laws_cmp::group_laws_cmp,
    };

    assert(vstd::laws_cmp::obeys_cmp::<u64>());
    assert(vstd::laws_cmp::obeys_cmp::<&u64>());
    vstd::std_specs::btree::axiom_increasing_seq_meaning::<&u64>(addresses);
    assert forall|i: int, j: int| 0 <= i < j < addresses.len() implies addresses.unref()[i]
        < addresses.unref()[j] by {
        assert(vstd::std_specs::cmp::OrdSpec::cmp_spec(&addresses[i], &addresses[j]) is Less);
    }
}

/// The addresses of a map in ascending order.
fn ordered_addresses(symbols: &BTreeMap<u64, String>) -> (addresses: Vec<u64>)
    ensures
        ascending(addresses@),
        forall|address: u64| addresses@.contains(address) <==> symbols@.contains_key(address),
{
    broadcast use {
        vstd::std_specs::btree::group_btree_axioms,
        vstd::laws_cmp::group_laws_cmp,
    };

    let mut addresses: Vec<u64> = Vec::new();
    assert(vstd::laws_cmp::obeys_cmp::<u64>());
    for address in iter: symbols.keys()
        invariant
            iter.seq().unref().to_set() == symbols@.dom(),
            vstd::std_specs::btree::increasing_seq(iter.seq()),
            addresses@.len() == iter.index(),
            forall|i: int| 0 <= i < addresses@.len() ==> addresses@[i] == *iter.seq()[i],
            iter.index() == iter.seq().len() ==> addresses@ == iter.seq().unref(),
            ascending(addresses@),
    {
        addresses.push(*address);
        proof {
            lemma_increasing(iter.seq());
            assert forall|i: int, j: int| 0 <= i < j < addresses@.len() implies addresses@[i]
                < addresses@[j] by {
                assert(iter.seq().unref()[i] < iter.seq().unref()[j]);
            }
        }
    }
    assert forall|address: u64| addresses@.contains(address) <==> symbols@.contains_key(address) by {
        assert(addresses@.to_set().contains(address) <==> symbols@.dom().contains(address));
    }
    addresses
}

/// The symbol that an instruction pointer lies in: the last one that starts at
/// or before it.
pub open spec fn symbol_at(symbols: Map<u64, Seq<char>>, ip: u64) -> Option<Seq<char>> {
    if exists|address: u64| symbols.contains_key(address) && address <= ip {
        Some(symbols[start_of(symbols, ip)])
    } else {
        None
    }
}

/// Where the symbol that an instruction pointer lies in starts.
pub open spec fn start_of(symbols: Map<u64, Seq<char>>, ip: u64) -> u64 {
    choose|address: u64| is_start(symbols, ip, address)
}

/// An address is the last one at or before an instruction pointer.
pub open spec fn is_start(symbols: Map<u64, Seq<char>>, ip: u64, address: u64) -> bool {
    &&& symbols.contains_key(address)
    &&& address <= ip
    &&& forall|other: u64| symbols.contains_key(other) && other <= ip ==> other <= address
}

/// The names in a map of symbols.
pub open spec fn names(symbols: Map<u64, String>) -> Map<u64, Seq<char>> {
    symbols.map_values(|name: String| name@)
}

/// Kernel symbols, arranged for lookup by instruction pointer.
pub struct SymbolTable {
    addresses: Vec<u64>,
    symbols: Vec<String>,
}

impl View for SymbolTable {
    type V = Map<u64, Seq<char>>;

    closed spec fn view(&self) -> Map<u64, Seq<char>> {
        Map::new(
            |address: u64| self.addresses@.contains(address),
            |address: u64| self.symbols@[self.addresses@.index_of(address)]@,
        )
    }
}

impl SymbolTable {
    #[verifier::type_invariant]
    closed spec fn well_formed(self) -> bool {
        &&& ascending(self.addresses@)
        &&& self.symbols@.len() == self.addresses@.len()
    }

    /// The table of the symbols in a map.
    pub fn new(symbols: &BTreeMap<u64, String>) -> (table: SymbolTable)
        ensures
            table@ == names(symbols@),
    {
        broadcast use vstd::std_specs::btree::group_btree_axioms;

        let addresses = ordered_addresses(symbols);
        let mut found: Vec<String> = Vec::new();
        let mut i: usize = 0;
        while i < addresses.len()
            invariant
                0 <= i <= addresses@.len(),
                found@.len() == i,
                forall|address: u64|
                    addresses@.contains(address) <==> symbols@.contains_key(address),
                forall|k: int| 0 <= k < i ==> #[trigger] found@[k]@ == symbols@[addresses@[k]]@,
            decreases addresses@.len() - i,
        {
            assert(addresses@.contains(addresses@[i as int]));
            proof {
                lemma_u64_keys_are_modelled();
            }
            if let Some(name) = symbols.get(&addresses[i]) {
                found.push(name.clone());
            }
            i = i + 1;
        }
        let table = SymbolTable { addresses, symbols: found };
        assert(table@ =~= names(symbols@)) by {
            assert forall|address: u64| table@.contains_key(address) implies table@[address]
                == names(symbols@)[address] by {
                let k = table.addresses@.index_of(address);
                assert(table.addresses@[k] == address);
            }
        }
        table
    }

    /// The name of the symbol that an instruction pointer lies in.
    pub fn resolve(&self, ip: u64) -> (name: Option<&String>)
        ensures
            match name {
                Some(name) => symbol_at(self@, ip) == Some(name@),
                None => symbol_at(self@, ip) is None,
            },
    {
        proof {
            use_type_invariant(self);
        }
        let mut low: usize = 0;
        let mut high: usize = self.addresses.len();
        while low < high
            invariant
                self.well_formed(),
                0 <= low <= high <= self.addresses@.len(),
                forall|i: int| 0 <= i < low ==> self.addresses@[i] <= ip,
                forall|i: int| high <= i < self.addresses@.len() ==> self.addresses@[i] > ip,
            decreases high - low,
        {
            let middle = low + (high - low) / 2;
            if self.addresses[middle] <= ip {
                low = middle + 1;
            } else {
                high = middle;
            }
        }
        if low == 0 {
            assert(symbol_at(self@, ip) is None) by {
                assert forall|address: u64| self@.contains_key(address) implies address > ip by {
                    let k = self.addresses@.index_of(address);
                    assert(self.addresses@[k] == address);
                }
            }
            None
        } else {
            proof {
                let start = self.addresses@[low - 1];
                assert(self.addresses@.contains(start));
                assert(is_start(self@, ip, start)) by {
                    assert forall|other: u64|
                        self@.contains_key(other) && other <= ip implies other <= start by {
                        let k = self.addresses@.index_of(other);
                        assert(self.addresses@[k] == other);
                    }
                }
                assert(is_start(self@, ip, start_of(self@, ip)));
                assert(start_of(self@, ip) == start);
                let k = self.addresses@.index_of(start);
                assert(self.addresses@[k] == start);
                assert(k == low - 1);
            }
            Some(&self.symbols[low - 1])
        }
    }
}

/// Numbers are ordered as a map of them needs.
proof fn lemma_u64_keys_are_modelled()
    ensures
        vstd::std_specs::btree::key_obeys_cmp_spec::<u64>(),
{
    broadcast use {
        vstd::std_specs::btree::group_btree_axioms,
        vstd::laws_cmp::group_laws_cmp,
    };

    assert(vstd::laws_cmp::obeys_cmp::<u64>());
}

/// A compiler may have cloned the function and named the clone after it; the
/// part of it that is kept apart because it seldom runs does not count.
pub open spec fn is_compiled_variant(name: Seq<char>) -> bool {
    "finish_task_switch."@.is_prefix_of(name) && !".cold"@.is_suffix_of(name)
}

/// The name under which the kernel has `finish_task_switch`: that name itself
/// if there is such a symbol, else that of the first variant by address.
pub open spec fn is_resume_symbol(symbols: Map<u64, String>, found: Option<Seq<char>>) -> bool {
    match found {
        Some(name) => if exists|address: u64|
            #[trigger] symbols.contains_key(address) && symbols[address]@
                == "finish_task_switch"@ {
            name == "finish_task_switch"@
        } else {
            exists|address: u64|
                {
                    &&& #[trigger] symbols.contains_key(address)
                    &&& is_compiled_variant(symbols[address]@)
                    &&& name == symbols[address]@
                    &&& forall|other: u64|
                        #[trigger] symbols.contains_key(other) && is_compiled_variant(
                            symbols[other]@,
                        ) ==> address <= other
                }
        },
        None => forall|address: u64| #[trigger]
            symbols.contains_key(address) ==> symbols[address]@ != "finish_task_switch"@
                && !is_compiled_variant(symbols[address]@),
    }
}

/// Finds the name under which the kernel has `finish_task_switch`.
pub fn find_finish_task_switch(symbols: &BTreeMap<u64, String>) -> (found: Option<&str>)
    ensures
        is_resume_symbol(
            symbols@,
            match found {
                Some(name) => Some(name@),
                None => None,
            },
        ),
{
    broadcast use vstd::std_specs::btree::group_btree_axioms;

    let exact = text::to_chars("finish_task_switch");
    let stem = text::to_chars("finish_task_switch.");
    let cold = text::to_chars(".cold");
    let addresses = ordered_addresses(symbols);
    let mut variant: Option<&str> = None;
    let ghost mut first: int = -1;
    let mut i: usize = 0;
    while i < addresses.len()
        invariant
            exact@ == "finish_task_switch"@,
            stem@ == "finish_task_switch."@,
            cold@ == ".cold"@,
            ascending(addresses@),
            forall|address: u64| addresses@.contains(address) <==> symbols@.contains_key(address),
            0 <= i <= addresses@.len(),
            forall|k: int|
                0 <= k < i ==> symbols@[#[trigger] addresses@[k]]@ != "finish_task_switch"@,
            match variant {
                Some(name) => {
                    &&& 0 <= first < i
                    &&& is_compiled_variant(symbols@[addresses@[first]]@)
                    &&& name@ == symbols@[addresses@[first]]@
                    &&& forall|k: int|
                        0 <= k < first ==> !is_compiled_variant(
                            symbols@[#[trigger] addresses@[k]]@,
                        )
                },
                None => forall|k: int|
                    0 <= k < i ==> !is_compiled_variant(symbols@[#[trigger] addresses@[k]]@),
            },
        decreases addresses@.len() - i,
    {
        assert(addresses@.contains(addresses@[i as int]));
        proof {
            lemma_u64_keys_are_modelled();
        }
        if let Some(symbol) = symbols.get(&addresses[i]) {
            let name = text::to_chars(symbol.as_str());
            if text::equal(&name, &exact) {
                return Some(symbol.as_str());
            }
            if variant.is_none() && text::starts_with(&name, &stem) && !text::ends_with(
                &name,
                &cold,
            ) {
                variant = Some(symbol.as_str());
                proof {
                    first = i as int;
                }
            }
        }
        i = i + 1;
    }
    proof {
        assert forall|address: u64| #[trigger] symbols@.contains_key(address) implies
            symbols@[address]@ != "finish_task_switch"@ && (is_compiled_variant(
            symbols@[address]@,
        ) ==> variant is Some && addresses@[first] <= address) by {
            assert(addresses@.contains(address));
            let k = addresses@.index_of(address);
            assert(addresses@[k] == address);
        }
        if variant is Some {
            assert(addresses@.contains(addresses@[first]));
            assert(symbols@.contains_key(addresses@[first]));
        }
    }
    variant
}

/// An instruction pointer lies in the symbol that starts at or before it if no other
/// starts between the two, and in none if none starts at or before it.
pub proof fn law_a_symbol_extends_to_the_next(
    symbols: Map<u64, Seq<char>>,
    start: u64,
    ip: u64,
)
    ensures
        symbols.contains_key(start) && start <= ip && (forall|other: u64| #[trigger]
            symbols.contains_key(other) ==> other <= start || other > ip) ==> symbol_at(symbols, ip)
            == Some(symbols[start]),
        (forall|other: u64| #[trigger] symbols.contains_key(other) ==> other > ip) ==> symbol_at(
            symbols,
            ip,
        ) is None,
{
    if symbols.contains_key(start) && start <= ip && (forall|other: u64| #[trigger]
        symbols.contains_key(other) ==> other <= start || other > ip) {
        assert(is_start(symbols, ip, start));
        let found = start_of(symbols, ip);
        assert(is_start(symbols, ip, found));
        assert(found == start);
    }
}

/// The symbol by which the kernel resumes threads: `finish_task_switch` wherever there
/// is such a symbol, else the one at the lowest address of those that begin with that
/// name and a point and do not end in `.cold`, and none if there is none of these.
pub proof fn law_the_resume_symbol_is_found(
    symbols: Map<u64, String>,
    found: Option<Seq<char>>,
    address: u64,
    rest: Seq<char>,
)
    requires
        is_resume_symbol(symbols, found),
        symbols.contains_key(address),
    ensures
        symbols[address]@ == "finish_task_switch"@ ==> found == Some("finish_task_switch"@),
        symbols[address]@ == "finish_task_switch."@ + rest && !".cold"@.is_suffix_of(
            "finish_task_switch."@ + rest,
        ) ==> found is Some && (found == Some("finish_task_switch"@) || exists|first: u64|
            #[trigger] symbols.contains_key(first) && first <= address && symbols[first]@
                == found->0),
        found is Some ==> {
            ||| found == Some("finish_task_switch"@)
            ||| "finish_task_switch."@.is_prefix_of(found->0) && !".cold"@.is_suffix_of(found->0)
        },
        found is Some ==> exists|at: u64|
            #[trigger] symbols.contains_key(at) && symbols[at]@ == found->0,
{
    let name = symbols[address]@;
    if name == "finish_task_switch."@ + rest && !".cold"@.is_suffix_of(
        "finish_task_switch."@ + rest,
    ) {
        assert("finish_task_switch."@.is_prefix_of(name)) by {
            assert("finish_task_switch."@ =~= name.subrange(
                0,
                "finish_task_switch."@.len() as int,
            ));
        }
        assert(is_compiled_variant(name));
    }
}

/// Every symbol of a map is in its table under its own address and name, and no other.
pub proof fn law_every_symbol_has_its_name(symbols: Map<u64, String>, address: u64)
    ensures
        names(symbols).contains_key(address) <==> symbols.contains_key(address),
        symbols.contains_key(address) ==> names(symbols)[address] == symbols[address]@,
{
}

} // verus!
