//! Byte strings: comparing and copying them.

use vstd::prelude::*;
use vstd::string::*;

verus! {

/// The bytes of a name that is written as a string.
pub open spec fn name(s: &str) -> Seq<u8> {
    s.spec_bytes()
}

/// Whether two byte strings are the same.
pub fn bytes_eq(a: &[u8], b: &[u8]) -> (r: bool)
    ensures
        r == (a@ == b@),
{
    if a.len() != b.len() {
        return false;
    }
    let mut i: usize = 0;
    while i < a.len()
        invariant
            a.len() == b.len(),
            i <= a.len(),
            forall|j: int| 0 <= j < i ==> a@[j] == b@[j],
        decreases a.len() - i,
    {
        if a[i] != b[i] {
            return false;
        }
        i += 1;
    }
    proof {
        assert(a@ =~= b@);
    }
    true
}

/// Whether a byte string is the given name.
pub fn is_name(a: &[u8], s: &str) -> (r: bool)
    ensures
        r == (a@ == name(s)),
{
    bytes_eq(a, s.as_bytes())
}

/// A copy of a byte string.
pub fn copy_bytes(a: &[u8]) -> (r: Vec<u8>)
    ensures
        r@ == a@,
{
    let mut r: Vec<u8> = Vec::new();
    let mut i: usize = 0;
    while i < a.len()
        invariant
            i <= a.len(),
            r@ == a@.take(i as int),
        decreases a.len() - i,
    {
        r.push(a[i]);
        proof {
            assert(a@.take(i as int).push(a@[i as int]) =~= a@.take(i + 1));
        }
        i += 1;
    }
    proof {
        assert(a@.take(a.len() as int) =~= a@);
    }
    r
}

/// The bytes of a name that is written as a string.
pub fn name_bytes(s: &str) -> (r: Vec<u8>)
    ensures
        r@ == name(s),
{
    copy_bytes(s.as_bytes())
}

} // verus!

verus! {

/// The bytes of a name that is written in ASCII are its characters.
pub proof fn lemma_name_bytes(s: &str)
    requires
        is_ascii(s),
    ensures
        name(s).len() == s@.len(),
        forall|i: int| 0 <= i < s@.len() ==> name(s)[i] == s@[i] as u8,
{
    is_ascii_spec_bytes(s);
}

/// The name `P` is none of the names that the catalog and the page tree
/// root are given.
pub proof fn lemma_parent_key_differs()
    ensures
        name("P") != name("Pages"),
        name("P") != name("StructTreeRoot"),
        name("P") != name("MarkInfo"),
        name("P") != name("Count"),
        name("P") != name("Kids"),
        name("P") != name("Pg"),
{
    reveal_strlit("P");
    reveal_strlit("Pages");
    reveal_strlit("StructTreeRoot");
    reveal_strlit("MarkInfo");
    reveal_strlit("Count");
    reveal_strlit("Kids");
    reveal_strlit("Pg");
    lemma_name_bytes("P");
    lemma_name_bytes("Pages");
    lemma_name_bytes("StructTreeRoot");
    lemma_name_bytes("MarkInfo");
    lemma_name_bytes("Count");
    lemma_name_bytes("Kids");
    lemma_name_bytes("Pg");
}

} // verus!

verus! {

/// The name `K` is none of the names of the type and the role.
pub proof fn lemma_kids_key_differs()
    ensures
        name("K") != name("Type"),
        name("K") != name("S"),
        name("K") != name("P"),
        name("K") != name("Pg"),
{
    reveal_strlit("K");
    reveal_strlit("Type");
    reveal_strlit("S");
    reveal_strlit("P");
    reveal_strlit("Pg");
    lemma_name_bytes("K");
    lemma_name_bytes("Type");
    lemma_name_bytes("S");
    lemma_name_bytes("P");
    lemma_name_bytes("Pg");
    assert(name("K")[0] == "K"@[0] as u8);
    assert(name("S")[0] == "S"@[0] as u8);
    assert(name("P")[0] == "P"@[0] as u8);
    assert("K"@[0] == 'K' && "S"@[0] == 'S' && "P"@[0] == 'P');
}

} // verus!

verus! {

/// The names `K`, `P` and `Pg` are none of the names by which an element is
/// told from others.
pub proof fn lemma_structure_keys_differ()
    ensures
        name("K") != name("P"),
        name("K") != name("Pg"),
        name("S") != name("K"),
        name("S") != name("P"),
        name("S") != name("Pg"),
        name("Type") != name("K"),
        name("Type") != name("P"),
        name("Type") != name("Pg"),
        name("StructTreeRoot") != name("K"),
        name("StructTreeRoot") != name("P"),
        name("StructTreeRoot") != name("Pg"),
        name("MCR") != name("OBJR"),
        name("Type") != name("MCID"),
{
    reveal_strlit("K");
    reveal_strlit("P");
    reveal_strlit("Pg");
    reveal_strlit("S");
    reveal_strlit("Type");
    reveal_strlit("StructTreeRoot");
    reveal_strlit("MCR");
    reveal_strlit("OBJR");
    reveal_strlit("MCID");
    lemma_name_bytes("K");
    lemma_name_bytes("P");
    lemma_name_bytes("Pg");
    lemma_name_bytes("S");
    lemma_name_bytes("Type");
    lemma_name_bytes("StructTreeRoot");
    lemma_name_bytes("MCR");
    lemma_name_bytes("OBJR");
    lemma_name_bytes("MCID");
    assert(name("K")[0] == "K"@[0] as u8);
    assert(name("S")[0] == "S"@[0] as u8);
    assert(name("P")[0] == "P"@[0] as u8);
    assert("K"@[0] == 'K' && "S"@[0] == 'S' && "P"@[0] == 'P');
    assert(name("Type")[3] == "Type"@[3] as u8);
    assert(name("MCID")[3] == "MCID"@[3] as u8);
    assert("Type"@[3] == 'e' && "MCID"@[3] == 'D');
}

} // verus!

verus! {

/// The names that the catalog and the page tree root are given differ from
/// each other.
pub proof fn lemma_root_keys_differ()
    ensures
        name("Count") != name("Kids"),
        name("Pages") != name("StructTreeRoot"),
        name("Pages") != name("MarkInfo"),
        name("StructTreeRoot") != name("MarkInfo"),
        name("Pages") != name("Count"),
        name("Pages") != name("Kids"),
        name("StructTreeRoot") != name("Count"),
        name("StructTreeRoot") != name("Kids"),
        name("MarkInfo") != name("Count"),
        name("MarkInfo") != name("Kids"),
{
    reveal_strlit("Count");
    reveal_strlit("Kids");
    reveal_strlit("Pages");
    reveal_strlit("StructTreeRoot");
    reveal_strlit("MarkInfo");
    lemma_name_bytes("Count");
    lemma_name_bytes("Kids");
    lemma_name_bytes("Pages");
    lemma_name_bytes("StructTreeRoot");
    lemma_name_bytes("MarkInfo");
    assert(name("Pages")[0] == "Pages"@[0] as u8);
    assert(name("Count")[0] == "Count"@[0] as u8);
    assert("Pages"@[0] == 'P' && "Count"@[0] == 'C');
}

} // verus!
