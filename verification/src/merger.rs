//! The per-item rule of the one-time store-to-store merge: items pass
//! through unchanged, except that in the user collection a plaintext
//! password is replaced by a fresh salted hash before the item is written to
//! the destination — or blanked where the hash primitive refuses the value,
//! so that no plaintext credential ever reaches the destination. The copy
//! loop itself drives two stores over the network and lives with the
//! surrounding process; the decision below is verified.

use crate::crypto::{hash_password_fresh, is_hashed_password, verify_spec, within_len_cap};
use crate::crypto::phc_parses;
use crate::item::Item;
use crate::item::str_eq;
use vstd::prelude::*;

verus! {

/// A user item needs rehashing when it carries a non-empty password field
/// that does not already parse as a PHC-format hash.
pub open spec fn password_needs_rehash(itm: Item) -> bool {
    &&& itm.strs_map().contains_key("password"@)
    &&& itm.strs_map()["password"@]@.len() > 0
    &&& !phc_parses(itm.strs_map()["password"@]@)
}

/// A password field fit for the destination: absent, empty, or a
/// well-formed PHC-encoded hash — never plaintext.
pub open spec fn password_sanitized(itm: Item) -> bool {
    itm.strs_map().contains_key("password"@) ==> (phc_parses(itm.strs_map()["password"@]@)
        || itm.strs_map()["password"@]@.len() == 0)
}

/// The item as it must reach the destination store: unchanged, unless it
/// belongs to the `user` collection and carries a plaintext password, in
/// which case that field alone is replaced by a hash that verifies against
/// the old plaintext value — or by the empty string where the primitive
/// refuses the password for its length, destroying but never leaking the
/// credential. A user item therefore always leaves with an absent, empty or
/// hashed password field.
pub fn prepare_merge_item(collection: &str, itm: &Item) -> (out: Item)
    requires
        itm.wf(),
    ensures
        out.wf(),
        !(collection@ == "user"@ && password_needs_rehash(*itm)) ==> out.eqv(itm),
        (collection@ == "user"@ && password_needs_rehash(*itm)) ==> {
            &&& out.id == itm.id
            &&& out.bools@ == itm.bools@
            &&& out.nums@ == itm.nums@
            &&& out.strs_map().contains_key("password"@)
            &&& within_len_cap(itm.strs_map()["password"@]@) ==> verify_spec(
                itm.strs_map()["password"@]@,
                out.strs_map()["password"@]@,
            )
            &&& !within_len_cap(itm.strs_map()["password"@]@) ==> out.strs_map()["password"@]@
                == Seq::<char>::empty()
            &&& forall|k: Seq<char>|
                k != "password"@ ==> out.strs_map().contains_key(k)
                    == itm.strs_map().contains_key(k)
            &&& forall|k: Seq<char>|
                k != "password"@ && itm.strs_map().contains_key(k) ==> out.strs_map()[k]
                    == itm.strs_map()[k]
        },
        collection@ == "user"@ ==> password_sanitized(out),
{
    let mut out = itm.duplicate();
    if str_eq(collection, "user") {
        let pw = out.safe_str("password", "");
        if !pw.as_str().is_empty() && !is_hashed_password(pw.as_str()) {
            proof {
                reveal_strlit("");
                assert(itm.strs_map().contains_key("password"@));
                assert(password_needs_rehash(*itm));
            }
            match hash_password_fresh(pw.as_str()) {
                Some(hash) => {
                    out.set_str("password", hash);
                },
                None => {
                    out.set_str("password", String::new());
                },
            }
        }
    }
    out
}

} // verus!
