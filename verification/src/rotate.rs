//! The rotation workflow as a state machine. The caller performs the
//! outside work — reading and writing the file, the two remote calls — and
//! feeds each outcome back in; every decision in between is made here.
//!
//! The order is fixed: load the old key, create a new pair, persist it,
//! delete the old key. A failure before the persist aborts with the file
//! untouched; a failed delete after a successful persist is only reported,
//! since the new key is already installed.

use crate::codec::lemma_set_then_get;
use crate::codec::lemma_set_wf;
use crate::codec::lemma_write_then_load;
use crate::codec::parse;
use crate::codec::parse_spec;
use crate::codec::serialize;
use crate::codec::serialize_sections;
use crate::errors::RotateError;
use crate::store::CredentialFile;
use crate::store::lookup;
use crate::store::sec_index;
use crate::store::spec_set;
use crate::store::valid_key;
use crate::store::wf_file;
use vstd::prelude::*;

verus! {

/// The field of a profile that holds the access key id.
pub open spec fn access_key_field() -> Seq<u8> {
    seq![97u8, 119u8, 115u8, 95u8, 97u8, 99u8, 99u8, 101u8, 115u8, 115u8, 95u8, 107u8, 101u8, 121u8, 95u8, 105u8, 100u8]
}

/// The field of a profile that holds the secret access key.
pub open spec fn secret_key_field() -> Seq<u8> {
    seq![97u8, 119u8, 115u8, 95u8, 115u8, 101u8, 99u8, 114u8, 101u8, 116u8, 95u8, 97u8, 99u8, 99u8, 101u8, 115u8, 115u8, 95u8, 107u8, 101u8, 121u8]
}

/// The access-key-id field name, as bytes for lookups.
pub fn access_key_field_vec() -> (r: Vec<u8>)
    ensures
        r@ == access_key_field(),
{
    let r: Vec<u8> = vec![97u8, 119u8, 115u8, 95u8, 97u8, 99u8, 99u8, 101u8, 115u8, 115u8, 95u8, 107u8, 101u8, 121u8, 95u8, 105u8, 100u8];
    proof {
        assert(r@ =~= access_key_field());
    }
    r
}

/// The secret-key field name, as bytes for lookups.
pub fn secret_key_field_vec() -> (r: Vec<u8>)
    ensures
        r@ == secret_key_field(),
{
    let r: Vec<u8> = vec![97u8, 119u8, 115u8, 95u8, 115u8, 101u8, 99u8, 114u8, 101u8, 116u8, 95u8, 97u8, 99u8, 99u8, 101u8, 115u8, 115u8, 95u8, 107u8, 101u8, 121u8];
    proof {
        assert(r@ =~= secret_key_field());
    }
    r
}

/// Both field names are keys a credential file can hold.
pub proof fn lemma_fields_valid()
    ensures
        valid_key(access_key_field()),
        valid_key(secret_key_field()),
        access_key_field() != secret_key_field(),
{
    assert(access_key_field().len() == 17);
    assert(secret_key_field().len() == 21);
}

/// Once a rotated file is persisted, the new pair stays readable whatever
/// becomes of the old key's deletion: writing the new pair into any
/// well-formed file that holds the profile and serialising it yields bytes
/// that parse back to that very file, whose profile answers with the new
/// key id and secret, every other section untouched.
pub proof fn lemma_new_key_survives(
    f: Seq<crate::store::SectionV>,
    m: Seq<u8>,
    p: Seq<u8>,
    id: Seq<u8>,
    secret: Seq<u8>,
)
    requires
        wf_file(f, m),
        sec_index(f, p) is Some,
        crate::store::valid_value(id),
        crate::store::valid_value(secret),
    ensures
        ({
            let f2 = spec_set(spec_set(f, p, access_key_field(), id), p, secret_key_field(), secret);
            &&& wf_file(f2, m)
            &&& parse_spec(serialize_sections(f2, m), m) == Some(f2)
            &&& lookup(f2, p, access_key_field()) == Some(id)
            &&& lookup(f2, p, secret_key_field()) == Some(secret)
            &&& f2.len() == f.len()
            &&& forall|i: int| 0 <= i < f.len() && f[i].name != p ==> f2[i] == f[i]
        }),
{
    lemma_fields_valid();
    let f1 = spec_set(f, p, access_key_field(), id);
    crate::store::lemma_sec_index(f, p);
    crate::store::lemma_key_index(f[sec_index(f, p).unwrap()].entries, access_key_field());
    lemma_set_wf(f, m, p, access_key_field(), id);
    lemma_set_then_get(f, p, access_key_field(), id);
    assert(lookup(f1, p, access_key_field()) == Some(id));
    assert(sec_index(f1, p) is Some);
    crate::store::lemma_sec_index(f1, p);
    crate::store::lemma_key_index(f1[sec_index(f1, p).unwrap()].entries, secret_key_field());
    let f2 = spec_set(f1, p, secret_key_field(), secret);
    lemma_set_wf(f1, m, p, secret_key_field(), secret);
    lemma_set_then_get(f1, p, secret_key_field(), secret);
    assert(lookup(f2, p, access_key_field()) == lookup(f1, p, access_key_field()));
    lemma_write_then_load(f2, m);
}

/// A rotation that has loaded the file and found the old key: the state
/// from which the remote create call may be attempted.
pub struct Rotation {
    pub profile: Vec<u8>,
    pub marker: Vec<u8>,
    pub file: CredentialFile,
    pub old_key: Vec<u8>,
}

/// A rotation whose new key is installed in memory and serialised: the
/// bytes must be written back before the old key may be deleted.
pub struct PersistPlan {
    pub profile: Vec<u8>,
    pub marker: Vec<u8>,
    pub file: CredentialFile,
    pub bytes: Vec<u8>,
    pub old_key: Vec<u8>,
    pub new_key_id: Vec<u8>,
}

/// A rotation whose new key is durably recorded: only the old key's
/// deletion is left.
pub struct DeletePlan {
    pub old_key: Vec<u8>,
    pub new_key_id: Vec<u8>,
}

/// How a completed run ended: fully, or with the old key still alive
/// remotely because its deletion failed after the new key was installed.
pub enum Outcome {
    Success,
    PartialSuccess { old_key: Vec<u8> },
}

/// The file contents loaded, parsed, and the old key extracted. `None`
/// contents mean the file could not be read. Exactly the well-formed files
/// whose profile holds a non-empty key id proceed; each failure names its
/// cause, and no remote call can be made from a failed load.
pub fn begin_rotation(contents: Option<Vec<u8>>, profile: Vec<u8>, marker: Vec<u8>) -> (r:
    Result<Rotation, RotateError>)
    ensures
        match r {
            Ok(rot) => {
                &&& contents is Some
                &&& parse_spec(contents.unwrap()@, marker@) == Some(rot.file@)
                &&& wf_file(rot.file@, marker@)
                &&& lookup(rot.file@, profile@, access_key_field()) == Some(rot.old_key@)
                &&& rot.old_key@.len() > 0
                &&& rot.profile@ == profile@
                &&& rot.marker@ == marker@
            },
            Err(e) => match e {
                RotateError::FileNotFound => contents is None,
                RotateError::Parse => contents is Some && parse_spec(
                    contents.unwrap()@,
                    marker@,
                ) is None,
                RotateError::FieldNotFound => {
                    &&& contents is Some
                    &&& parse_spec(contents.unwrap()@, marker@) is Some
                    &&& match lookup(
                        parse_spec(contents.unwrap()@, marker@).unwrap(),
                        profile@,
                        access_key_field(),
                    ) {
                        None => true,
                        Some(k) => k.len() == 0,
                    }
                },
                _ => false,
            },
        },
{
    let c = match contents {
        None => {
            return Err(RotateError::FileNotFound);
        },
        Some(c) => c,
    };
    let file = match parse(c.as_slice(), marker.as_slice()) {
        Err(e) => {
            return Err(e);
        },
        Ok(f) => f,
    };
    proof {
        crate::codec::lemma_parse_wf(c@, marker@);
    }
    let akid = access_key_field_vec();
    let old_key = match file.get(profile.as_slice(), akid.as_slice()) {
        None => {
            return Err(RotateError::FieldNotFound);
        },
        Some(k) => k,
    };
    if old_key.len() == 0 {
        return Err(RotateError::FieldNotFound);
    }
    Ok(Rotation { profile, marker, file, old_key })
}

impl Rotation {
    /// The outcome of the remote create call applied. No pair — the call
    /// failed or returned empty credentials — aborts the rotation before
    /// anything was written, so the file on disk is untouched. A pair
    /// replaces the profile's two fields and serialises the new file; the
    /// written-back bytes are promised to parse back to the new file, with
    /// the new pair readable under the profile and every other section
    /// untouched.
    pub fn created_step(self, created: Option<(Vec<u8>, Vec<u8>)>) -> (r: Result<
        PersistPlan,
        RotateError,
    >)
        requires
            wf_file(self.file@, self.marker@),
            lookup(self.file@, self.profile@, access_key_field()) == Some(self.old_key@),
        ensures
            match r {
                Ok(plan) => {
                    &&& created is Some
                    &&& crate::store::valid_value(created.unwrap().0@)
                    &&& crate::store::valid_value(created.unwrap().1@)
                    &&& plan.new_key_id@ == created.unwrap().0@
                    &&& plan.old_key@ == self.old_key@
                    &&& plan.profile@ == self.profile@
                    &&& plan.marker@ == self.marker@
                    &&& plan.file@ == spec_set(
                        spec_set(
                            self.file@,
                            self.profile@,
                            access_key_field(),
                            created.unwrap().0@,
                        ),
                        self.profile@,
                        secret_key_field(),
                        created.unwrap().1@,
                    )
                    &&& lookup(plan.file@, self.profile@, access_key_field()) == Some(
                        created.unwrap().0@,
                    )
                    &&& lookup(plan.file@, self.profile@, secret_key_field()) == Some(
                        created.unwrap().1@,
                    )
                    &&& plan.file@.len() == self.file@.len()
                    &&& (forall|i: int|
                        0 <= i < self.file@.len() && self.file@[i].name != self.profile@
                            ==> plan.file@[i] == self.file@[i])
                    &&& wf_file(plan.file@, self.marker@)
                    &&& plan.bytes@ == serialize_sections(plan.file@, self.marker@)
                    &&& parse_spec(plan.bytes@, self.marker@) == Some(plan.file@)
                },
                Err(e) => e == RotateError::Api && match created {
                    None => true,
                    Some(p) => !(crate::store::valid_value(p.0@) && crate::store::valid_value(
                        p.1@,
                    )),
                },
            },
    {
        let (id, secret) = match created {
            None => {
                return Err(RotateError::Api);
            },
            Some(p) => p,
        };
        if !crate::store::check_value(id.as_slice()) || !crate::store::check_value(
            secret.as_slice(),
        ) {
            return Err(RotateError::Api);
        }
        let Rotation { profile, marker, mut file, old_key } = self;
        let ghost f0: Seq<crate::store::SectionV> = file@;
        let ghost idv: Seq<u8> = id@;
        let ghost secv: Seq<u8> = secret@;
        let akid = access_key_field_vec();
        let sk = secret_key_field_vec();
        proof {
            lemma_fields_valid();
        }
        let n1 = crate::store::dup_bytes(&profile);
        let v1 = crate::store::dup_bytes(&id);
        file.set(n1, akid, v1);
        let ghost f1: Seq<crate::store::SectionV> = file@;
        let n2 = crate::store::dup_bytes(&profile);
        file.set(n2, sk, secret);
        let ghost f2: Seq<crate::store::SectionV> = file@;
        proof {
            assert(f1 == spec_set(f0, profile@, access_key_field(), idv));
            assert(f2 == spec_set(f1, profile@, secret_key_field(), secv));
            assert(sec_index(f0, profile@) is Some);
            lemma_new_key_survives(f0, marker@, profile@, idv, secv);
        }
        let bytes = serialize(&file, marker.as_slice());
        Ok(PersistPlan { profile, marker, file, bytes, old_key, new_key_id: id })
    }
}

impl PersistPlan {
    /// The outcome of writing the bytes back applied. A failed write is
    /// fatal: the new key exists remotely but is recorded nowhere, so the
    /// operator must intervene. A successful write leaves only the old
    /// key's deletion.
    pub fn persisted_step(self, write_ok: bool) -> (r: Result<DeletePlan, RotateError>)
        ensures
            match r {
                Ok(d) => write_ok && d.old_key@ == self.old_key@ && d.new_key_id@
                    == self.new_key_id@,
                Err(e) => !write_ok && e == RotateError::Io,
            },
    {
        if write_ok {
            Ok(DeletePlan { old_key: self.old_key, new_key_id: self.new_key_id })
        } else {
            Err(RotateError::Io)
        }
    }
}

impl DeletePlan {
    /// The outcome of the remote delete applied. Failure is not fatal: the
    /// new key is already installed, so the run ends in partial success,
    /// naming the old key the operator must revoke by hand.
    pub fn deleted_step(self, delete_ok: bool) -> (r: Outcome)
        ensures
            delete_ok ==> r == Outcome::Success,
            !delete_ok ==> r == (Outcome::PartialSuccess { old_key: self.old_key }),
    {
        if delete_ok {
            Outcome::Success
        } else {
            Outcome::PartialSuccess { old_key: self.old_key }
        }
    }
}

} // verus!

