//! The table of gas identities: for each gas id, the host's reference to the
//! gas type and the gas's name, with lookups in both directions.
//!
//! Gas ids are handed out densely, in the order the gases are registered.
//! When two registrations share a type or a name, lookups by that type or
//! name find the later one.
use vstd::prelude::*;

use std::collections::BTreeMap;

use vstd::string::StringSliceAdditionalSpecFns;
use vstd::utf8::{
    decode_utf8_split, encode_utf8, encode_utf8_decode_utf8, encode_utf8_first_scalar,
    encode_utf8_valid_utf8, is_ascii_chars, is_ascii_chars_encode_utf8, is_char_boundary,
    pop_first_scalar, valid_utf8,
};

verus! {

broadcast use vstd::laws_cmp::group_laws_cmp;

/// Why a gas lookup failed.
#[derive(Clone, Copy, Debug, PartialEq, Eq, Structural)]
pub enum RegistryError {
    /// No gas has this host type reference.
    InvalidType(u32),
    /// No gas has this id.
    InvalidGasId(usize),
    /// No gas has the requested name.
    InvalidName,
}

/// The last index at which `s` holds `x`, if any.
pub open spec fn last_index_of<A>(s: Seq<A>, x: A) -> Option<int>
    decreases s.len(),
{
    if s.len() == 0 {
        None
    } else if s.last() == x {
        Some(s.len() - 1)
    } else {
        last_index_of(s.drop_last(), x)
    }
}

pub proof fn lemma_last_index_of<A>(s: Seq<A>, x: A)
    ensures
        last_index_of(s, x) is None <==> !s.contains(x),
        last_index_of(s, x) matches Some(i) ==> 0 <= i < s.len() && s[i] == x && forall|j: int|
            i < j < s.len() ==> s[j] != x,
    decreases s.len(),
{
    if s.len() > 0 {
        let p = s.drop_last();
        lemma_last_index_of(p, x);
        if s.last() != x {
            if let Some(i) = last_index_of(p, x) {
                assert(s[i] == p[i]);
                assert forall|j: int| i < j < s.len() implies s[j] != x by {
                    if j < p.len() {
                        assert(s[j] == p[j]);
                    }
                }
            }
            if s.contains(x) {
                let k = choose|k: int| 0 <= k < s.len() && s[k] == x;
                assert(p[k] == x);
            }
            if p.contains(x) {
                let k = choose|k: int| 0 <= k < p.len() && p[k] == x;
                assert(s[k] == x);
            }
        } else {
            assert(s[s.len() - 1] == x);
        }
    }
}

/// The prefix of the host's gas type paths.
pub open spec fn gas_path_prefix() -> Seq<char> {
    seq!['/', 'd', 'a', 't', 'u', 'm', '/', 'g', 'a', 's', '/']
}

/// The name of a gas from its type path: the path without the gas path
/// prefix, or the whole path when it does not start with that prefix.
pub open spec fn gas_name_of(path: Seq<char>) -> Seq<char> {
    let p = gas_path_prefix();
    if path.len() >= p.len() && path.subrange(0, p.len() as int) == p {
        path.subrange(p.len() as int, path.len() as int)
    } else {
        path
    }
}

proof fn lemma_encode_concat(a: Seq<char>, t: Seq<char>)
    ensures
        encode_utf8(a + t) == encode_utf8(a) + encode_utf8(t),
    decreases a.len(),
{
    if a.len() > 0 {
        assert((a + t).drop_first() =~= a.drop_first() + t);
        assert((a + t)[0] == a[0]);
        lemma_encode_concat(a.drop_first(), t);
        assert(encode_utf8(a + t) =~= encode_utf8(a) + encode_utf8(t));
    } else {
        assert(a + t =~= t);
        assert(encode_utf8(a) =~= Seq::<u8>::empty());
        assert(encode_utf8(a) + encode_utf8(t) =~= encode_utf8(t));
    }
}

proof fn lemma_encode_boundary(a: Seq<char>, t: Seq<char>)
    ensures
        valid_utf8(encode_utf8(a + t)),
        is_char_boundary(encode_utf8(a + t), encode_utf8(a).len() as int),
    decreases a.len(),
{
    encode_utf8_valid_utf8(a + t);
    if a.len() > 0 {
        let c = a + t;
        assert(c.drop_first() =~= a.drop_first() + t);
        assert(c[0] == a[0]);
        encode_utf8_first_scalar(c);
        let bytes = encode_utf8(c);
        assert(pop_first_scalar(bytes) =~= encode_utf8(c.drop_first()));
        lemma_encode_boundary(a.drop_first(), t);
    }
}

/// The name of a gas from its host type path.
pub fn gas_name_from_path(path: &str) -> (r: String)
    ensures
        r@ == gas_name_of(path@),
{
    let prefix: &str = "/datum/gas/";
    let n: usize = 11;
    let ghost matches = path@.len() >= gas_path_prefix().len() && path@.subrange(0, 11) == gas_path_prefix();
    proof {
        reveal_strlit("/datum/gas/");
        assert(prefix@ =~= gas_path_prefix());
        assert(is_ascii_chars(prefix@));
        is_ascii_chars_encode_utf8(prefix@);
        encode_utf8_decode_utf8(path@);
        encode_utf8_valid_utf8(path@);
        encode_utf8_decode_utf8(prefix@);
        let p = gas_path_prefix();
        if path@.len() >= p.len() && path@.subrange(0, p.len() as int) == p {
            let t = path@.subrange(p.len() as int, path@.len() as int);
            assert(path@ =~= p + t);
            lemma_encode_concat(p, t);
            lemma_encode_boundary(p, t);
            assert(path.spec_bytes().subrange(0, 11) =~= encode_utf8(p));
        }
        assert(matches ==> path.spec_bytes().len() >= 11 && is_char_boundary(path.spec_bytes(), 11)
            && path.spec_bytes().subrange(0, 11) == encode_utf8(gas_path_prefix()));
    }
    let byte_len = path.as_bytes().len();
    if byte_len >= n && path.is_char_boundary(n) {
        let (head, rest) = path.split_at(n);
        let head_owned = head.to_owned();
        let prefix_owned = prefix.to_owned();
        proof {
            let b = path.spec_bytes();
            encode_utf8_decode_utf8(head@);
            encode_utf8_decode_utf8(rest@);
            decode_utf8_split(b, 11);
            assert(path@ =~= head@ + rest@);
            if matches {
                assert(head.spec_bytes() =~= encode_utf8(gas_path_prefix()));
                encode_utf8_decode_utf8(gas_path_prefix());
                assert(head@ == gas_path_prefix());
            }
        }
        if head_owned == prefix_owned {
            proof {
                assert(path@.subrange(0, 11) =~= head@);
                assert(path@.subrange(11, path@.len() as int) =~= rest@);
            }
            return rest.to_owned();
        }
    }
    proof {
        assert(!matches);
    }
    path.to_owned()
}

/// Gas ids with their host type references and names.
pub struct GasIds {
    id_to_type: Vec<u32>,
    id_to_name: Vec<String>,
    id_from_type: BTreeMap<u32, usize>,
}

impl View for GasIds {
    /// Entry `i` is the type reference and the name of gas `i`.
    type V = Seq<(u32, Seq<char>)>;

    closed spec fn view(&self) -> Seq<(u32, Seq<char>)> {
        Seq::new(self.id_to_type@.len(), |i: int| (self.id_to_type@[i], self.id_to_name@[i]@))
    }
}

/// The type references of a table, in id order.
pub open spec fn types_of(s: Seq<(u32, Seq<char>)>) -> Seq<u32> {
    s.map_values(|e: (u32, Seq<char>)| e.0)
}

/// The names of a table, in id order.
pub open spec fn names_of(s: Seq<(u32, Seq<char>)>) -> Seq<Seq<char>> {
    s.map_values(|e: (u32, Seq<char>)| e.1)
}

impl GasIds {
    /// The type index maps each registered type to the last gas id that has it.
    pub closed spec fn wf(&self) -> bool {
        &&& self.id_to_type@.len() == self.id_to_name@.len()
        &&& forall|t: u32|
            #[trigger] self.id_from_type@.contains_key(t) <==> self.id_to_type@.contains(t)
        &&& forall|t: u32|
            #[trigger] self.id_from_type@.contains_key(t) ==> last_index_of(self.id_to_type@, t)
                == Some(self.id_from_type@[t] as int)
    }

    /// An empty table.
    pub fn new() -> (r: Self)
        ensures
            r.wf(),
            r@ == Seq::<(u32, Seq<char>)>::empty(),
    {
        let r = GasIds { id_to_type: Vec::new(), id_to_name: Vec::new(), id_from_type: BTreeMap::new() };
        assert(r@ =~= Seq::<(u32, Seq<char>)>::empty());
        r
    }

    /// Registers a gas under the next id and returns that id.
    pub fn register(&mut self, gas_type: u32, name: String) -> (r: usize)
        requires
            old(self).wf(),
        ensures
            final(self).wf(),
            r == old(self)@.len(),
            final(self)@ == old(self)@.push((gas_type, name@)),
    {
        let id = self.id_to_type.len();
        let ghost pre = self@;
        let ghost pre_types = self.id_to_type@;
        let ghost pre_map = self.id_from_type@;
        let ghost name_view = name@;
        self.id_to_type.push(gas_type);
        self.id_to_name.push(name);
        self.id_from_type.insert(gas_type, id);
        proof {
            assert(self@ =~= pre.push((gas_type, name_view)));
            let types = self.id_to_type@;
            assert(types.drop_last() =~= pre_types);
            assert forall|t: u32| #[trigger] self.id_from_type@.contains_key(t) <==> types.contains(t) by {
                if types.contains(t) && t != gas_type {
                    let k = choose|k: int| 0 <= k < types.len() && types[k] == t;
                    assert(pre_types[k] == t);
                    assert(pre_map.contains_key(t));
                }
                if pre_map.contains_key(t) && t != gas_type {
                    assert(pre_types.contains(t));
                    let k = choose|k: int| 0 <= k < pre_types.len() && pre_types[k] == t;
                    assert(types[k] == t);
                }
                if t == gas_type {
                    assert(types[id as int] == t);
                }
            }
            assert forall|t: u32| #[trigger] self.id_from_type@.contains_key(t) implies last_index_of(types, t)
                == Some(self.id_from_type@[t] as int) by {
                if t != gas_type {
                    assert(pre_map.contains_key(t));
                }
            }
        }
        id
    }

    /// The number of registered gases.
    pub fn total_num_gases(&self) -> (r: usize)
        requires
            self.wf(),
        ensures
            r == self@.len(),
    {
        self.id_to_type.len()
    }

    /// The gas id of a host type reference: the last gas registered with it.
    pub fn gas_id_from_type(&self, gas_type: u32) -> (r: Result<usize, RegistryError>)
        requires
            self.wf(),
        ensures
            match last_index_of(types_of(self@), gas_type) {
                Some(i) => r == Ok::<usize, RegistryError>(i as usize),
                None => r == Err::<usize, RegistryError>(RegistryError::InvalidType(gas_type)),
            },
    {
        proof {
            assert(types_of(self@) =~= self.id_to_type@);
            lemma_last_index_of(self.id_to_type@, gas_type);
        }
        match self.id_from_type.get(&gas_type) {
            Some(id) => Ok(*id),
            None => Err(RegistryError::InvalidType(gas_type)),
        }
    }

    /// The host type reference of gas `id`.
    pub fn gas_id_to_type(&self, id: usize) -> (r: Result<u32, RegistryError>)
        requires
            self.wf(),
        ensures
            id < self@.len() ==> r == Ok::<u32, RegistryError>(self@[id as int].0),
            id >= self@.len() ==> r == Err::<u32, RegistryError>(RegistryError::InvalidGasId(id)),
    {
        if id < self.id_to_type.len() {
            Ok(self.id_to_type[id])
        } else {
            Err(RegistryError::InvalidGasId(id))
        }
    }

    /// The name of gas `id`.
    pub fn gas_name(&self, id: usize) -> (r: Result<&String, RegistryError>)
        requires
            self.wf(),
        ensures
            id < self@.len() ==> r is Ok && r.unwrap()@ == self@[id as int].1,
            id >= self@.len() ==> r == Err::<&String, RegistryError>(RegistryError::InvalidGasId(id)),
    {
        if id < self.id_to_name.len() {
            Ok(&self.id_to_name[id])
        } else {
            Err(RegistryError::InvalidGasId(id))
        }
    }

    /// The gas id registered under `name`: the last gas registered with it.
    pub fn gas_id_from_type_name(&self, name: &str) -> (r: Result<usize, RegistryError>)
        requires
            self.wf(),
        ensures
            match last_index_of(names_of(self@), name@) {
                Some(i) => r == Ok::<usize, RegistryError>(i as usize),
                None => r == Err::<usize, RegistryError>(RegistryError::InvalidName),
            },
    {
        let wanted = name.to_owned();
        let ghost names = names_of(self@);
        let mut i: usize = self.id_to_name.len();
        proof {
            assert(names.subrange(0, i as int) =~= names);
        }
        while i > 0
            invariant
                0 <= i <= self@.len(),
                names == names_of(self@),
                names.len() == self@.len(),
                self.id_to_name@.len() == self@.len(),
                wanted@ == name@,
                last_index_of(names, name@) == last_index_of(names.subrange(0, i as int), name@),
            decreases i,
        {
            let ghost pre = names.subrange(0, i as int);
            proof {
                assert(pre.drop_last() =~= names.subrange(0, i as int - 1));
                assert(pre.last() == self.id_to_name@[i - 1]@);
            }
            if self.id_to_name[i - 1] == wanted {
                return Ok(i - 1);
            }
            i = i - 1;
        }
        Err(RegistryError::InvalidName)
    }
}

} // verus!
