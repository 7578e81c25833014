//! Audit keys: what an auditor needs to see the incoming payments of a wallet.
use vstd::prelude::*;
use crate::bytes::array_32;
use crate::error;
use crate::error::{Error, Result};
use crate::field;
use crate::group;
use crate::primitives;
use crate::primitives::{KeyEpoch, PublicKey, SecretKey};
use crate::scanner;
use crate::scanner::ViewOnlyScanner;
use crate::stealth;
use crate::stealth::{RecipientKeys, StealthAddress};
use crate::subaddress;
use crate::subaddress::Subaddress;
use crate::text;

verus! {

/// A view secret and a public spend key, with the range of an audit: it detects payments and
/// cannot spend them.
#[derive(Clone, Copy)]
pub struct AuditKey {
    /// The view secret.
    pub view_secret: SecretKey,
    /// The public spend key.
    pub spend_public: PublicKey,
    /// The first block of the audit; without it there is no lower end.
    pub start_height: Option<u64>,
    /// The last block of the audit; without it there is no upper end.
    pub end_height: Option<u64>,
    /// The highest index of the subaddresses to scan; without it only the main address is.
    pub subaddress_max_index: Option<u32>,
    /// The highest account of the subaddresses to scan; without it only account 0 is.
    pub subaddress_max_account: Option<u32>,
}

/// An audit key in a form to hand on.
#[derive(Clone, Debug, PartialEq, Eq)]
pub struct AuditKeyExport {
    /// The view secret in hexadecimal.
    pub view_secret_hex: String,
    /// The public spend key in hexadecimal.
    pub spend_public_hex: String,
    /// The first block of the audit.
    pub start_height: Option<u64>,
    /// The last block of the audit.
    pub end_height: Option<u64>,
    /// The highest index of the subaddresses to scan.
    pub subaddress_max_index: Option<u32>,
    /// The highest account of the subaddresses to scan.
    pub subaddress_max_account: Option<u32>,
}

/// The account of the subaddress at a place of the sweep, for so many indices per account.
/// The sweep goes through the accounts, and through the indices of each.
pub open spec fn sweep_account(k: int, width: int) -> u32 {
    (k / width) as u32
}

/// The index of the subaddress at a place of the sweep.
pub open spec fn sweep_index(k: int, width: int) -> u32 {
    (k % width) as u32
}

/// Whether the first `n` entries are those of the sweep.
pub open spec fn sweeps(
    subs: Seq<(u32, u32, RecipientKeys)>,
    n: int,
    width: int,
    view_secret: Seq<u8>,
    spend: nat,
) -> bool {
    forall|k: int|
        #![trigger subs[k]]
        0 <= k < n ==> {
            let (account, index, keys) = subs[k];
            &&& account == sweep_account(k, width)
            &&& index == sweep_index(k, width)
            &&& keys.view_value() == stealth::key_scalar(view_secret)
            &&& keys.spend_value() == field::plus(
                spend,
                subaddress::offset(view_secret, account, index),
            )
        }
}

/// The number of subaddresses that an audit scans.
pub open spec fn sweep_size(max_index: Option<u32>, max_account: Option<u32>) -> int {
    match max_index {
        None => 0,
        Some(i) => (match max_account {
            Some(a) => a as int,
            None => 0,
        } + 1) * (i + 1),
    }
}

impl AuditKey {
    /// The view secret.
    pub open spec fn view_bytes(self) -> Seq<u8> {
        self.view_secret@
    }

    /// The public spend key.
    pub open spec fn spend_bytes(self) -> Seq<u8> {
        self.spend_public@
    }

    /// Whether two audit keys have the same keys.
    pub open spec fn same_keys(self, other: AuditKey) -> bool {
        self.view_bytes() == other.view_bytes() && self.spend_bytes() == other.spend_bytes()
    }

    /// An audit key without a range, for the main address.
    pub fn new(view_secret: SecretKey, spend_public: PublicKey) -> (r: AuditKey)
        ensures
            r.view_bytes() == view_secret@,
            r.spend_bytes() == spend_public@,
            r.start_height is None,
            r.end_height is None,
            r.subaddress_max_index is None,
            r.subaddress_max_account is None,
    {
        AuditKey {
            view_secret,
            spend_public,
            start_height: None,
            end_height: None,
            subaddress_max_index: None,
            subaddress_max_account: None,
        }
    }

    /// An audit key for the keys of a wallet period.
    pub fn from_epoch(keys: &KeyEpoch) -> (r: AuditKey)
        ensures
            r.view_bytes() == keys.view_secret@,
            r.spend_bytes() == keys.spend_public@,
            r.start_height is None,
            r.end_height is None,
            r.subaddress_max_index is None,
            r.subaddress_max_account is None,
    {
        AuditKey::new(keys.view_secret, keys.spend_public)
    }

    /// Restricts the audit to a range of blocks.
    pub fn with_range(self, start: Option<u64>, end: Option<u64>) -> (r: AuditKey)
        ensures
            r.same_keys(self),
            r.start_height == start,
            r.end_height == end,
            r.subaddress_max_index == self.subaddress_max_index,
            r.subaddress_max_account == self.subaddress_max_account,
    {
        let mut r = self;
        r.start_height = start;
        r.end_height = end;
        r
    }

    /// Sets the highest index of the subaddresses to scan.
    pub fn with_subaddress_max_index(self, max_index: u32) -> (r: AuditKey)
        ensures
            r.same_keys(self),
            r.start_height == self.start_height,
            r.end_height == self.end_height,
            r.subaddress_max_index == Some(max_index),
            r.subaddress_max_account == self.subaddress_max_account,
    {
        let mut r = self;
        r.subaddress_max_index = Some(max_index);
        r
    }

    /// Sets the highest account of the subaddresses to scan.
    pub fn with_subaddress_max_account(self, max_account: u32) -> (r: AuditKey)
        ensures
            r.same_keys(self),
            r.start_height == self.start_height,
            r.end_height == self.end_height,
            r.subaddress_max_index == self.subaddress_max_index,
            r.subaddress_max_account == Some(max_account),
    {
        let mut r = self;
        r.subaddress_max_account = Some(max_account);
        r
    }

    /// Whether a block lies in the range of the audit, whose ends belong to it.
    pub fn is_in_range(&self, height: u64) -> (r: bool)
        ensures
            r == ((self.start_height matches Some(start) ==> start <= height) && (
            self.end_height matches Some(end) ==> height <= end)),
    {
        if let Some(start) = self.start_height {
            if height < start {
                return false;
            }
        }
        if let Some(end) = self.end_height {
            if height > end {
                return false;
            }
        }
        true
    }

    /// A scanner for the main address and the subaddresses of the audit.
    pub fn to_scanner(&self) -> (r: Result<ViewOnlyScanner>)
        ensures
            match group::ristretto_log(self.spend_bytes()) {
                Some(spend) => r matches Ok(s) && {
                    &&& stealth::recipient_outcome(
                        Ok(s.main_keys()),
                        self.view_bytes(),
                        self.spend_bytes(),
                    )
                    &&& s.subs().len() == sweep_size(
                        self.subaddress_max_index,
                        self.subaddress_max_account,
                    )
                    &&& sweeps(
                        s.subs(),
                        s.subs().len() as int,
                        match self.subaddress_max_index {
                            Some(i) => i + 1,
                            None => 1,
                        },
                        self.view_bytes(),
                        spend,
                    )
                },
                None => r matches Err(e) && error::is_public_key(e, "invalid spend public key"@),
            },
    {
        let mut scanner = match ViewOnlyScanner::new(&self.view_secret, &self.spend_public) {
            Ok(s) => s,
            Err(e) => {
                return Err(e);
            },
        };
        let max_index: u32 = match self.subaddress_max_index {
            Some(i) => i,
            None => {
                return Ok(scanner);
            },
        };
        let max_account: u32 = match self.subaddress_max_account {
            Some(a) => a,
            None => 0,
        };
        let ghost spend = group::ristretto_log(self.spend_bytes())->0;
        let ghost main = scanner.main_keys();
        let ghost width = max_index as int + 1;
        let mut account: u64 = 0;
        while account <= max_account as u64
            invariant
                account <= max_account as u64 + 1,
                width == max_index as int + 1,
                group::ristretto_log(self.spend_bytes()) == Some(spend),
                scanner.main_keys() == main,
                scanner.subs().len() == account * width,
                sweeps(
                    scanner.subs(),
                    scanner.subs().len() as int,
                    width,
                    self.view_bytes(),
                    spend,
                ),
            decreases max_account as u64 + 1 - account,
        {
            let mut i: u64 = 0;
            while i <= max_index as u64
                invariant
                    account <= max_account as u64,
                    i <= max_index as u64 + 1,
                    width == max_index as int + 1,
                    group::ristretto_log(self.spend_bytes()) == Some(spend),
                    scanner.main_keys() == main,
                    scanner.subs().len() == account * width + i,
                    sweeps(
                        scanner.subs(),
                        scanner.subs().len() as int,
                        width,
                        self.view_bytes(),
                        spend,
                    ),
                decreases max_index as u64 + 1 - i,
            {
                let sub = match Subaddress::generate(
                    &self.spend_public,
                    &self.view_secret,
                    account as u32,
                    i as u32,
                ) {
                    Ok(s) => s,
                    Err(e) => {
                        assert(false);
                        return Err(e);
                    },
                };
                let keys = match RecipientKeys::new(&self.view_secret, &sub.spend_public) {
                    Ok(k) => k,
                    Err(e) => {
                        assert(false);
                        return Err(e);
                    },
                };
                proof {
                    vstd::arithmetic::div_mod::lemma_fundamental_div_mod_converse(
                        scanner.subs().len() as int,
                        width,
                        account as int,
                        i as int,
                    );
                }
                scanner.add_subaddress(account as u32, i as u32, keys);
                i = i + 1;
            }
            assert((account + 1) * width == account * width + width) by (nonlinear_arith);
            account = account + 1;
        }
        Ok(scanner)
    }

    /// The keys that find payments to the main address.
    pub fn to_recipient_keys(&self) -> (r: Result<RecipientKeys>)
        ensures
            stealth::recipient_outcome(r, self.view_bytes(), self.spend_bytes()),
    {
        RecipientKeys::new(&self.view_secret, &self.spend_public)
    }

    /// The form to hand on.
    pub fn export(&self) -> (r: AuditKeyExport)
        ensures
            r.view_secret_hex@ == text::hex(self.view_bytes()),
            r.spend_public_hex@ == text::hex(self.spend_bytes()),
            r.start_height == self.start_height,
            r.end_height == self.end_height,
            r.subaddress_max_index == self.subaddress_max_index,
            r.subaddress_max_account == self.subaddress_max_account,
    {
        AuditKeyExport {
            view_secret_hex: text::hex_encode(self.view_secret.as_bytes()),
            spend_public_hex: text::hex_encode(self.spend_public.as_bytes()),
            start_height: self.start_height,
            end_height: self.end_height,
            subaddress_max_index: self.subaddress_max_index,
            subaddress_max_account: self.subaddress_max_account,
        }
    }

    /// Reads the form that was handed on.
    pub fn import(export: &AuditKeyExport) -> (r: Result<AuditKey>)
        ensures
            import_outcome(r, *export),
    {
        let view = match text::hex_decode(export.view_secret_hex.as_str()) {
            Ok(v) => v,
            Err(e) => {
                return Err(Error::InvalidParams(e));
            },
        };
        let spend = match text::hex_decode(export.spend_public_hex.as_str()) {
            Ok(v) => v,
            Err(e) => {
                return Err(Error::InvalidParams(e));
            },
        };
        if view.len() != 32 || spend.len() != 32 {
            return Err(error::params("invalid key length"));
        }
        let view_arr = array_32(view.as_slice(), 0);
        let spend_arr = array_32(spend.as_slice(), 0);
        assert(view_arr@ =~= view@);
        assert(spend_arr@ =~= spend@);
        Ok(
            AuditKey {
                view_secret: SecretKey::from_bytes(view_arr),
                spend_public: PublicKey::from_bytes(spend_arr),
                start_height: export.start_height,
                end_height: export.end_height,
                subaddress_max_index: export.subaddress_max_index,
                subaddress_max_account: export.subaddress_max_account,
            },
        )
    }
}

/// What reading an exported audit key gives.
pub open spec fn import_outcome(r: Result<AuditKey>, export: AuditKeyExport) -> bool {
    let v = vstd::utf8::encode_utf8(export.view_secret_hex@);
    let s = vstd::utf8::encode_utf8(export.spend_public_hex@);
    match (text::unhex(v), text::unhex(s)) {
        (None, _) => r matches Err(e) && error::is_params(e, text::hex_fault(v)),
        (_, None) => r matches Err(e) && error::is_params(e, text::hex_fault(s)),
        (Some(view), Some(spend)) => if view.len() != 32 || spend.len() != 32 {
            r matches Err(e) && error::is_params(e, "invalid key length"@)
        } else {
            r matches Ok(k) && k.view_bytes() == view && k.spend_bytes() == spend && k.start_height
                == export.start_height && k.end_height == export.end_height
                && k.subaddress_max_index == export.subaddress_max_index
                && k.subaddress_max_account == export.subaddress_max_account
        },
    }
}

/// An audit key that was exported is imported with the same keys and the same range.
pub proof fn law_audit_key_round_trip(key: AuditKey, export: AuditKeyExport, r: Result<AuditKey>)
    requires
        export.view_secret_hex@ == text::hex(key.view_bytes()),
        export.spend_public_hex@ == text::hex(key.spend_bytes()),
        export.start_height == key.start_height,
        export.end_height == key.end_height,
        export.subaddress_max_index == key.subaddress_max_index,
        export.subaddress_max_account == key.subaddress_max_account,
        import_outcome(r, export),
    ensures
        r matches Ok(k) && k.same_keys(key) && k.start_height == key.start_height && k.end_height
            == key.end_height && k.subaddress_max_index == key.subaddress_max_index
            && k.subaddress_max_account == key.subaddress_max_account,
{
    primitives::lemma_secret_key_len(key.view_secret);
    text::law_hex_round_trip(key.view_bytes());
    text::law_hex_round_trip(key.spend_bytes());
}

/// An audit scans every subaddress up to its highest account and index.
pub proof fn law_audit_covers(
    max_index: u32,
    max_account: u32,
    account: u32,
    index: u32,
)
    requires
        account <= max_account,
        index <= max_index,
    ensures
        ({
            let width = max_index + 1;
            let k = account * width + index;
            &&& 0 <= k < sweep_size(Some(max_index), Some(max_account))
            &&& sweep_account(k, width) == account
            &&& sweep_index(k, width) == index
        }),
{
    let width = max_index + 1;
    let k = account * width + index;
    vstd::arithmetic::div_mod::lemma_fundamental_div_mod_converse(
        k,
        width,
        account as int,
        index as int,
    );
    assert(account * width + index < (max_account + 1) * width) by (nonlinear_arith)
        requires
            account <= max_account,
            index < width,
    ;
    assert(account * width >= 0) by (nonlinear_arith)
        requires
            width >= 1,
            account >= 0,
    ;
}

/// An audit detects the payments to every subaddress up to its highest account and index: a
/// scan names that subaddress, or one earlier in the sweep that owns the payment too.
pub proof fn law_audit_detects(
    subs: Seq<(u32, u32, RecipientKeys)>,
    max_index: u32,
    max_account: u32,
    view_secret: Seq<u8>,
    spend: nat,
    account: u32,
    index: u32,
    s: StealthAddress,
    output_idx: u8,
)
    requires
        subs.len() == sweep_size(Some(max_index), Some(max_account)),
        sweeps(subs, subs.len() as int, max_index + 1, view_secret, spend),
        account <= max_account,
        index <= max_index,
        stealth::owned(
            s,
            stealth::key_scalar(view_secret),
            field::plus(spend, subaddress::offset(view_secret, account, index)),
            output_idx,
        ),
    ensures
        scanner::first_owner(subs, s, output_idx) matches Some((a, i)) && a * (max_index + 1) + i
            <= account * (max_index + 1) + index && stealth::owned(
            s,
            stealth::key_scalar(view_secret),
            field::plus(spend, subaddress::offset(view_secret, a, i)),
            output_idx,
        ),
{
    let width = max_index + 1;
    let k = account * width + index;
    law_audit_covers(max_index, max_account, account, index);
    assert(subs[k].0 == account && subs[k].1 == index);
    scanner::lemma_first_owner(subs, s, output_idx, k);
    let j = choose|j: int|
        0 <= j <= k && scanner::keys_own((#[trigger] subs[j]).2, s, output_idx)
            && scanner::first_owner(subs, s, output_idx) == Some((subs[j].0, subs[j].1));
    assert(subs[j].0 == sweep_account(j, width));
    vstd::arithmetic::div_mod::lemma_fundamental_div_mod(j, width);
    vstd::arithmetic::div_mod::lemma_div_is_ordered(j, k, width);
    vstd::arithmetic::div_mod::lemma_fundamental_div_mod_converse(
        k,
        width,
        account as int,
        index as int,
    );
    vstd::arithmetic::div_mod::lemma_div_pos_is_pos(j, width);
    vstd::arithmetic::div_mod::lemma_mod_bound(j, width);
    assert(width * (j / width) == (j / width) * width) by (nonlinear_arith);
}

} // verus!
