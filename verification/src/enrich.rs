//! Attaching names to the subjects of a record.
//!
//! Enrichment runs after decoding. It looks up the user and group ids of each
//! subject token and stores the names beside them. The ids themselves stay as
//! they were decoded, and an id that the tables do not know simply gets no
//! name: enrichment cannot fail.

use crate::identity::IdentityTable;
use crate::record::token_models;
use crate::record::tokens_len;
use crate::record::AuditRecord;
use crate::record::AuditRecordModel;
use crate::token::SubjectIds;
use crate::token::SubjectNames;
use crate::token::SubjectNamesModel;
use crate::token::Token;
use crate::token::TokenModel;
use vstd::prelude::*;

verus! {

/// The name that a table gives to an id, if it knows the id.
pub open spec fn lookup(names: Map<u32, Seq<char>>, id: u32) -> Option<Seq<char>> {
    if names.contains_key(id) {
        Some(names[id])
    } else {
        None
    }
}

/// The names of the ids of a subject: each user id looked up among the
/// users, each group id among the groups.
pub open spec fn resolve_names(
    ids: SubjectIds,
    users: Map<u32, Seq<char>>,
    groups: Map<u32, Seq<char>>,
) -> SubjectNamesModel {
    SubjectNamesModel {
        audit_user: lookup(users, ids.audit_uid),
        effective_user: lookup(users, ids.effective_uid),
        effective_group: lookup(groups, ids.effective_gid),
        real_user: lookup(users, ids.real_uid),
        real_group: lookup(groups, ids.real_gid),
    }
}

/// A token after enrichment: a subject carries the names of its ids, and any
/// other token is unchanged.
pub open spec fn enrich_token(
    token: TokenModel,
    users: Map<u32, Seq<char>>,
    groups: Map<u32, Seq<char>>,
) -> TokenModel {
    match token {
        TokenModel::Subject { tag, ids, .. } => TokenModel::Subject {
            tag,
            ids,
            names: resolve_names(ids, users, groups),
        },
        other => other,
    }
}

/// A record after enrichment: the same header, the same status, and each
/// token enriched in its place.
pub open spec fn enrich_record(
    record: AuditRecordModel,
    users: Map<u32, Seq<char>>,
    groups: Map<u32, Seq<char>>,
) -> AuditRecordModel {
    AuditRecordModel {
        header: record.header,
        tokens: Seq::new(
            record.tokens.len(),
            |i: int| enrich_token(record.tokens[i], users, groups),
        ),
        status: record.status,
    }
}

/// An owned copy of a name that was looked up.
fn owned(name: Option<&str>) -> (copy: Option<String>)
    ensures
        match name {
            Some(name) => copy matches Some(c) && c@ == name@,
            None => copy is None,
        },
{
    match name {
        Some(name) => Some(name.to_owned()),
        None => None,
    }
}

/// Looks up the names of the ids of a subject.
fn names_for(ids: &SubjectIds, table: &IdentityTable) -> (names: SubjectNames)
    ensures
        names@ == resolve_names(*ids, table.users(), table.groups()),
{
    SubjectNames {
        audit_user: owned(table.resolve_uid(ids.audit_uid)),
        effective_user: owned(table.resolve_uid(ids.effective_uid)),
        effective_group: owned(table.resolve_gid(ids.effective_gid)),
        real_user: owned(table.resolve_uid(ids.real_uid)),
        real_group: owned(table.resolve_gid(ids.real_gid)),
    }
}

impl AuditRecord {
    /// Attaches to every subject token the names that `table` has for its
    /// ids. Nothing else about the record changes.
    pub fn enrich(&mut self, table: &IdentityTable)
        ensures
            final(self)@ == enrich_record(old(self)@, table.users(), table.groups()),
    {
        let ghost before = token_models(self.tokens@);
        let ghost users = table.users();
        let ghost groups = table.groups();
        let count: usize = self.tokens.len();
        let mut i: usize = 0;
        while i < count
            invariant
                i <= count,
                count == before.len(),
                users == table.users(),
                groups == table.groups(),
                self.header == old(self).header,
                self.status == old(self).status,
                before == token_models(old(self).tokens@),
                self.tokens@.len() == count,
                forall|j: int|
                    0 <= j < i ==> (#[trigger] self.tokens@[j])@ == enrich_token(
                        before[j],
                        users,
                        groups,
                    ),
                forall|j: int| i <= j < count ==> (#[trigger] self.tokens@[j])@ == before[j],
            decreases count - i,
        {
            let subject: Option<(u8, SubjectIds)> = match &self.tokens[i] {
                Token::Subject { tag, ids, .. } => Some((*tag, *ids)),
                _ => None,
            };
            match subject {
                Some((tag, ids)) => {
                    let names = names_for(&ids, table);
                    self.tokens.set(i, Token::Subject { tag, ids, names });
                },
                None => {},
            }
            i = i + 1;
        }
        assert(token_models(self.tokens@) =~= enrich_record(old(self)@, users, groups).tokens);
    }
}

/// Enrichment changes names and nothing else: each token keeps its tag, its
/// length and its well-formedness, a subject keeps its ids, and the record
/// keeps its header, its status and the number of bytes it accounts for.
pub proof fn lemma_enrich_preserves(
    record: AuditRecordModel,
    users: Map<u32, Seq<char>>,
    groups: Map<u32, Seq<char>>,
)
    ensures
        ({
            let enriched = enrich_record(record, users, groups);
            &&& enriched.header == record.header
            &&& enriched.status == record.status
            &&& enriched.tokens.len() == record.tokens.len()
            &&& forall|i: int|
                0 <= i < record.tokens.len() ==> {
                    let before = #[trigger] record.tokens[i];
                    let after = enriched.tokens[i];
                    &&& after.tag() == before.tag()
                    &&& after.encoded_len() == before.encoded_len()
                    &&& after.wf() == before.wf()
                    &&& before !is Subject ==> after == before
                    &&& before is Subject ==> after is Subject && after->Subject_ids
                        == before->Subject_ids
                }
            &&& enriched.consumed() == record.consumed()
            &&& record.wf() ==> enriched.wf()
        }),
{
    let enriched = enrich_record(record, users, groups);
    lemma_enriched_len(record.tokens, users, groups);
    assert(enriched.tokens =~= enrich_tokens(record.tokens, users, groups));
    if record.wf() {
        assert forall|i: int| 0 <= i < enriched.tokens.len() implies (
        #[trigger] enriched.tokens[i]).wf() by {
            assert(record.tokens[i].wf());
        }
    }
}

/// The tokens of a record after enrichment.
spec fn enrich_tokens(
    tokens: Seq<TokenModel>,
    users: Map<u32, Seq<char>>,
    groups: Map<u32, Seq<char>>,
) -> Seq<TokenModel> {
    Seq::new(tokens.len(), |i: int| enrich_token(tokens[i], users, groups))
}

/// Enriched tokens take as many bytes as the tokens they came from.
proof fn lemma_enriched_len(
    tokens: Seq<TokenModel>,
    users: Map<u32, Seq<char>>,
    groups: Map<u32, Seq<char>>,
)
    ensures
        tokens_len(enrich_tokens(tokens, users, groups)) == tokens_len(tokens),
    decreases tokens.len(),
{
    if tokens.len() > 0 {
        lemma_enriched_len(tokens.drop_last(), users, groups);
        assert(enrich_tokens(tokens, users, groups).drop_last() =~= enrich_tokens(
            tokens.drop_last(),
            users,
            groups,
        ));
    }
}

/// Enriching twice with the same tables is enriching once.
pub proof fn lemma_enrich_idempotent(
    record: AuditRecordModel,
    users: Map<u32, Seq<char>>,
    groups: Map<u32, Seq<char>>,
)
    ensures
        enrich_record(enrich_record(record, users, groups), users, groups) == enrich_record(
            record,
            users,
            groups,
        ),
{
    let once = enrich_record(record, users, groups);
    let twice = enrich_record(once, users, groups);
    assert(twice.tokens =~= once.tokens);
}

} // verus!
