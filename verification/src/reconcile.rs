//! Orchestration of one run: interpret the outcome of the exchange, and
//! only with a validated triple in hand load, update and re-serialize the
//! store. A failure at any step aborts the rest: no store text is ever
//! produced from an incomplete exchange, so nothing is ever persisted then.

use vstd::prelude::*;
use crate::codec::{
    lemma_round_trip, lemma_set_section_fields_serializable, line_safe, parse_store, ser_store,
    serializable, serializable_entry, serialize_store, spec_parse, trim_stable,
};
use crate::error::Error;
use crate::exchange::{
    CredentialTriple, ServiceOutcome, interpret_outcome, outcome_complete, outcome_error_matches,
    outcome_triple,
};
use crate::store::{
    Entry, EntryModel, SectionModel, entries_model, entries_wf, lemma_set_section_fields_idempotent,
    lemma_set_section_fields_wf, spec_set_section_fields, store_wf,
};

verus! {

/// The three standard credential keys of a profile section, with the
/// triple's values, in their fixed order.
pub open spec fn spec_credential_fields(a: Seq<char>, s: Seq<char>, t: Seq<char>) -> Seq<
    EntryModel,
> {
    seq![
        EntryModel { key: "aws_access_key_id"@, value: a },
        EntryModel { key: "aws_secret_access_key"@, value: s },
        EntryModel { key: "aws_session_token"@, value: t },
    ]
}

/// The three standard credential keys are mutually distinct.
pub proof fn lemma_credential_fields_wf(a: Seq<char>, s: Seq<char>, t: Seq<char>)
    ensures
        entries_wf(spec_credential_fields(a, s, t)),
{
    reveal_strlit("aws_access_key_id");
    reveal_strlit("aws_secret_access_key");
    reveal_strlit("aws_session_token");
    assert("aws_access_key_id"@.len() == 17);
    assert("aws_secret_access_key"@.len() == 21);
    assert("aws_session_token"@.len() == 17);
    assert("aws_access_key_id"@[4] == 'a');
    assert("aws_session_token"@[4] == 's');
}

/// The triple as the three entries that reconciliation writes.
pub fn credential_fields(triple: &CredentialTriple) -> (r: Vec<Entry>)
    ensures
        entries_model(r@) == spec_credential_fields(
            triple.access_key_id@,
            triple.secret_access_key@,
            triple.session_token@,
        ),
{
    let mut r: Vec<Entry> = Vec::new();
    r.push(
        Entry {
            key: String::from_str("aws_access_key_id"),
            value: triple.access_key_id.clone(),
        },
    );
    r.push(
        Entry {
            key: String::from_str("aws_secret_access_key"),
            value: triple.secret_access_key.clone(),
        },
    );
    r.push(
        Entry {
            key: String::from_str("aws_session_token"),
            value: triple.session_token.clone(),
        },
    );
    proof {
        assert(entries_model(r@) =~~= spec_credential_fields(
            triple.access_key_id@,
            triple.secret_access_key@,
            triple.session_token@,
        ));
    }
    r
}

/// A triple and a profile name the store's text form can hold: none of
/// them breaks a line.
pub open spec fn storable(triple: CredentialTriple, target_profile: Seq<char>) -> bool {
    &&& line_safe(triple.access_key_id@)
    &&& line_safe(triple.secret_access_key@)
    &&& line_safe(triple.session_token@)
    &&& line_safe(target_profile)
}

/// Does the text contain a line break?
fn has_newline(s: &str) -> (r: bool)
    ensures
        r == !line_safe(s@),
{
    let n = s.unicode_len();
    let mut i: usize = 0;
    while i < n
        invariant
            i <= n,
            n == s@.len(),
            forall|k: int| 0 <= k < i ==> s@[k] != '\n',
        decreases n - i,
    {
        if s.get_char(i) == '\n' {
            return true;
        }
        i += 1;
    }
    false
}

/// Apply a validated triple to the store text: parse it, set the three
/// credential keys under the target profile, and serialize the result.
/// Unparsable text is a format error and produces no output at all; so is
/// a triple or profile name with a line break in it, which no store text
/// could carry back.
pub fn apply_triple(store_text: &str, target_profile: &str, triple: &CredentialTriple) -> (r:
    Result<String, Error>)
    ensures
        !storable(*triple, target_profile@) ==> (r matches Err(e) && e matches
            Error::StoreFormatError { .. }),
        storable(*triple, target_profile@) ==> match spec_parse(store_text@) {
            Some(m) => (r matches Ok(out) && out@ == ser_store(
                spec_set_section_fields(
                    m,
                    target_profile@,
                    spec_credential_fields(
                        triple.access_key_id@,
                        triple.secret_access_key@,
                        triple.session_token@,
                    ),
                ),
            )),
            None => (r matches Err(e) && e matches Error::StoreFormatError { .. }),
        },
{
    if has_newline(triple.access_key_id.as_str()) || has_newline(
        triple.secret_access_key.as_str(),
    ) || has_newline(triple.session_token.as_str()) || has_newline(target_profile) {
        return Err(
            Error::StoreFormatError {
                detail: String::from_str(
                    "credential value or profile name contains a line break",
                ),
            },
        );
    }
    let mut store = match parse_store(store_text) {
        Ok(s) => s,
        Err(e) => {
            return Err(e);
        },
    };
    let fields = credential_fields(triple);
    store.set_section_fields(target_profile, &fields);
    Ok(serialize_store(&store))
}

/// One whole run's decision, from the raw service outcome to the new store
/// text: an incomplete or failed exchange is a typed failure before the
/// store is even looked at, a complete one is applied to the store text.
/// A triple or profile name with a line break in it is a format error, so
/// a malformed service response can never write an unreadable store.
pub fn reconcile_store_text(
    outcome: ServiceOutcome,
    store_text: &str,
    target_profile: &str,
) -> (r: Result<String, Error>)
    ensures
        !outcome_complete(outcome) ==> (r matches Err(e) && outcome_error_matches(outcome, e)),
        outcome_complete(outcome) && !(line_safe(outcome_triple(outcome).0) && line_safe(
            outcome_triple(outcome).1,
        ) && line_safe(outcome_triple(outcome).2) && line_safe(target_profile@)) ==> (r matches
            Err(e) && e matches Error::StoreFormatError { .. }),
        outcome_complete(outcome) && line_safe(outcome_triple(outcome).0) && line_safe(
            outcome_triple(outcome).1,
        ) && line_safe(outcome_triple(outcome).2) && line_safe(target_profile@)
            ==> match spec_parse(store_text@) {
            Some(m) => (r matches Ok(out) && out@ == ser_store(
                spec_set_section_fields(
                    m,
                    target_profile@,
                    spec_credential_fields(
                        outcome_triple(outcome).0,
                        outcome_triple(outcome).1,
                        outcome_triple(outcome).2,
                    ),
                ),
            )),
            None => (r matches Err(e) && e matches Error::StoreFormatError { .. }),
        },
{
    let triple = match interpret_outcome(outcome) {
        Ok(t) => t,
        Err(e) => {
            return Err(e);
        },
    };
    apply_triple(store_text, target_profile, &triple)
}

/// The three credential entries can be carried by the text form whenever
/// the triple's values fit on a line.
pub proof fn lemma_credential_fields_serializable(a: Seq<char>, s: Seq<char>, t: Seq<char>)
    requires
        line_safe(a),
        line_safe(s),
        line_safe(t),
        trim_stable(a),
        trim_stable(s),
        trim_stable(t),
    ensures
        forall|k: int|
            0 <= k < spec_credential_fields(a, s, t).len() ==> serializable_entry(
                #[trigger] spec_credential_fields(a, s, t)[k],
            ),
{
    reveal_strlit("aws_access_key_id");
    reveal_strlit("aws_secret_access_key");
    reveal_strlit("aws_session_token");
    assert("aws_access_key_id"@.len() == 17);
    assert("aws_secret_access_key"@.len() == 21);
    assert("aws_session_token"@.len() == 17);
    assert(forall|i: int|
        0 <= i < 17 ==> "aws_access_key_id"@[i] != '\n' && #[trigger] "aws_access_key_id"@[i]
            != '=');
    assert(forall|i: int|
        0 <= i < 21 ==> "aws_secret_access_key"@[i] != '\n'
            && #[trigger] "aws_secret_access_key"@[i] != '=');
    assert(forall|i: int|
        0 <= i < 17 ==> "aws_session_token"@[i] != '\n' && #[trigger] "aws_session_token"@[i]
            != '=');
    assert("aws_access_key_id"@[0] == 'a');
    assert("aws_secret_access_key"@[0] == 'a');
    assert("aws_session_token"@[0] == 'a');
    assert("aws_access_key_id"@[16] == 'd');
    assert("aws_secret_access_key"@[20] == 'y');
    assert("aws_session_token"@[16] == 'n');
}

/// The text a successful run persists parses back to exactly the store it
/// wrote: reading the store file again yields the reconciled store.
pub proof fn lemma_persisted_text_reads_back(
    m: Seq<SectionModel>,
    profile: Seq<char>,
    a: Seq<char>,
    s: Seq<char>,
    t: Seq<char>,
)
    requires
        store_wf(m),
        serializable(m),
        line_safe(profile),
        trim_stable(profile),
        line_safe(a),
        line_safe(s),
        line_safe(t),
        trim_stable(a),
        trim_stable(s),
        trim_stable(t),
    ensures
        ({
            let m2 = spec_set_section_fields(m, profile, spec_credential_fields(a, s, t));
            spec_parse(ser_store(m2)) == Some(m2)
        }),
{
    lemma_credential_fields_serializable(a, s, t);
    lemma_set_section_fields_serializable(m, profile, spec_credential_fields(a, s, t));
    lemma_set_section_fields_wf(m, profile, spec_credential_fields(a, s, t));
    lemma_round_trip(spec_set_section_fields(m, profile, spec_credential_fields(a, s, t)));
}

/// Running the same reconciliation again on the persisted file changes
/// nothing: the store the second run reads back takes the same triple to
/// the very text the first run wrote.
pub proof fn lemma_second_run_writes_same_text(
    m: Seq<SectionModel>,
    profile: Seq<char>,
    a: Seq<char>,
    s: Seq<char>,
    t: Seq<char>,
)
    requires
        store_wf(m),
        serializable(m),
        line_safe(profile),
        trim_stable(profile),
        line_safe(a),
        line_safe(s),
        line_safe(t),
        trim_stable(a),
        trim_stable(s),
        trim_stable(t),
    ensures
        ({
            let m2 = spec_set_section_fields(m, profile, spec_credential_fields(a, s, t));
            &&& spec_parse(ser_store(m2)) == Some(m2)
            &&& ser_store(spec_set_section_fields(m2, profile, spec_credential_fields(a, s, t)))
                == ser_store(m2)
        }),
{
    lemma_persisted_text_reads_back(m, profile, a, s, t);
    lemma_reconcile_idempotent(m, profile, a, s, t);
}

/// Applying the same triple twice to the same store produces a result
/// identical to applying it once.
pub proof fn lemma_reconcile_idempotent(
    m: Seq<SectionModel>,
    profile: Seq<char>,
    a: Seq<char>,
    s: Seq<char>,
    t: Seq<char>,
)
    requires
        store_wf(m),
    ensures
        spec_set_section_fields(
            spec_set_section_fields(m, profile, spec_credential_fields(a, s, t)),
            profile,
            spec_credential_fields(a, s, t),
        ) == spec_set_section_fields(m, profile, spec_credential_fields(a, s, t)),
{
    lemma_credential_fields_wf(a, s, t);
    lemma_set_section_fields_idempotent(m, profile, spec_credential_fields(a, s, t));
}

} // verus!
