//! Finding the ACPI 2 table among the firmware's configuration tables.
use vstd::prelude::*;

verus! {

/// The bytes of the ACPI 2 vendor GUID 8868e871-e4f1-11d3-bc22-0080c73c8881,
/// in the mixed-endian order of their in-memory layout.
pub open spec fn acpi2_guid_bytes() -> Seq<u8> {
    seq![
        0x71u8, 0xe8u8, 0x68u8, 0x88u8, 0xf1u8, 0xe4u8, 0xd3u8, 0x11u8,
        0xbcu8, 0x22u8, 0x00u8, 0x80u8, 0xc7u8, 0x3cu8, 0x88u8, 0x81u8,
    ]
}

/// `i` is the index of the first GUID in `guids` equal to `target`.
pub open spec fn is_first_match(guids: Seq<[u8; 16]>, target: Seq<u8>, i: int) -> bool {
    &&& 0 <= i < guids.len()
    &&& guids[i]@ == target
    &&& forall|j: int| 0 <= j < i ==> guids[j]@ != target
}

/// uefi's `ConfigTableEntry::ACPI2_GUID`, as the 16 bytes that uguid's
/// `Guid::to_bytes` gives for it: the constant is defined by
/// `guid!("8868e871-e4f1-11d3-bc22-0080c73c8881")`, whose first three
/// fields are stored little-endian.
#[verifier::external_body]
fn acpi2_guid() -> (g: [u8; 16])
    ensures
        g@ == acpi2_guid_bytes(),
{
    uefi::table::cfg::ConfigTableEntry::ACPI2_GUID.to_bytes()
}

/// Whether two GUIDs hold the same bytes.
pub fn guid_eq(a: &[u8; 16], b: &[u8; 16]) -> (r: bool)
    ensures
        r == (a@ == b@),
{
    let mut i: usize = 0;
    while i < 16
        invariant
            0 <= i <= 16,
            a@.len() == 16,
            b@.len() == 16,
            forall|j: int| 0 <= j < i ==> a@[j] == b@[j],
        decreases 16 - i,
    {
        if a[i] != b[i] {
            return false;
        }
        i = i + 1;
    }
    assert(a@ =~= b@);
    true
}

/// The index of the first configuration table whose vendor GUID is
/// `target`, if there is one.
pub fn find_config_table(guids: &[[u8; 16]], target: &[u8; 16]) -> (r: Option<usize>)
    ensures
        match r {
            Some(i) => is_first_match(guids@, target@, i as int),
            None => forall|j: int| 0 <= j < guids@.len() ==> guids@[j]@ != target@,
        },
{
    let mut i: usize = 0;
    while i < guids.len()
        invariant
            0 <= i <= guids@.len(),
            forall|j: int| 0 <= j < i ==> guids@[j]@ != target@,
        decreases guids@.len() - i,
    {
        if guid_eq(&guids[i], target) {
            return Some(i);
        }
        i = i + 1;
    }
    None
}

/// The index of the first configuration table that holds the ACPI 2 RSDP,
/// given the tables' vendor GUIDs in firmware order.
pub fn acpi_table_index(guids: &[[u8; 16]]) -> (r: Option<usize>)
    ensures
        match r {
            Some(i) => is_first_match(guids@, acpi2_guid_bytes(), i as int),
            None => forall|j: int| 0 <= j < guids@.len() ==> guids@[j]@ != acpi2_guid_bytes(),
        },
{
    let target = acpi2_guid();
    find_config_table(guids, &target)
}

/// A first match is an index whose GUID equals the target, with no equal
/// GUID before it; there is at most one.
pub proof fn lemma_first_match_unique(guids: Seq<[u8; 16]>, target: Seq<u8>, i: int, j: int)
    requires
        is_first_match(guids, target, i),
        is_first_match(guids, target, j),
    ensures
        i == j,
        0 <= i < guids.len(),
        guids[i]@ == target,
        forall|k: int| 0 <= k < i ==> guids[k]@ != target,
{
    if i < j {
        assert(guids[i]@ != target);
    } else if j < i {
        assert(guids[j]@ != target);
    }
}

/// The ACPI 2 vendor GUID 8868e871-e4f1-11d3-bc22-0080c73c8881 lies in
/// memory as its first field (4 bytes), second and third (2 bytes each)
/// little-endian, then its last 8 bytes in order.
pub proof fn lemma_acpi2_guid_layout()
    ensures
        acpi2_guid_bytes().len() == 16,
        acpi2_guid_bytes()[0] as int + 0x100 * acpi2_guid_bytes()[1] + 0x1_0000 * acpi2_guid_bytes()[2]
            + 0x100_0000 * acpi2_guid_bytes()[3] == 0x8868e871,
        acpi2_guid_bytes()[4] as int + 0x100 * acpi2_guid_bytes()[5] == 0xe4f1,
        acpi2_guid_bytes()[6] as int + 0x100 * acpi2_guid_bytes()[7] == 0x11d3,
        acpi2_guid_bytes().subrange(8, 16) == seq![0xbcu8, 0x22u8, 0x00u8, 0x80u8, 0xc7u8, 0x3cu8, 0x88u8, 0x81u8],
{
    assert(acpi2_guid_bytes().subrange(8, 16) =~= seq![0xbcu8, 0x22u8, 0x00u8, 0x80u8, 0xc7u8, 0x3cu8, 0x88u8, 0x81u8]);
}

} // verus!
