//! The schema entity and its construction service.
//!
//! A schema pairs a canonically derived identifier with a name, a version,
//! a deduplicated set of attribute names, and an optional ledger-assigned
//! sequence number. The identifier is derived deterministically from the
//! origin identifier, the name, and the version, so any party holding those
//! three inputs re-derives the same identifier.

use vstd::prelude::*;

use crate::error::Error;
use crate::ident::DidValue;
use crate::strutil::{
    contains_str, distinct_strs, has_str, lemma_has_str_push, lemma_sviews_push, sviews,
};
use crate::validation::Validatable;

verus! {

/// A set of attribute names: uniqueness enforced, order kept stable for
/// serialization but not semantically significant.
#[derive(Debug, Clone, PartialEq, Eq)]
pub struct AttributeNames(Vec<String>);

impl View for AttributeNames {
    type V = Seq<Seq<char>>;

    closed spec fn view(&self) -> Seq<Seq<char>> {
        sviews(self.0@)
    }
}

impl AttributeNames {
    /// No attribute name occurs twice.
    pub open spec fn wf(&self) -> bool {
        distinct_strs(self@)
    }

    /// Builds the set from a list of names, collapsing duplicates to their
    /// first occurrence; a list that is already duplicate-free is kept
    /// exactly as it is.
    pub fn from_vec(items: Vec<String>) -> (r: AttributeNames)
        ensures
            r.wf(),
            forall|x: Seq<char>| has_str(r@, x) <==> has_str(sviews(items@), x),
            distinct_strs(sviews(items@)) ==> r@ == sviews(items@),
            r@.len() <= items@.len(),
            r@.len() == 0 <==> items@.len() == 0,
    {
        let n: usize = items.len();
        let mut out: Vec<String> = Vec::new();
        let mut i: usize = 0;
        while i < n
            invariant
                0 <= i <= n,
                n == items@.len(),
                out@.len() <= i,
                i > 0 ==> out@.len() > 0,
                distinct_strs(sviews(out@)),
                forall|x: Seq<char>|
                    has_str(sviews(out@), x) <==> has_str(sviews(items@.take(i as int)), x),
                distinct_strs(sviews(items@)) ==> sviews(out@) == sviews(items@.take(i as int)),
            decreases n - i,
        {
            let ghost old_out = out@;
            let ghost taken = items@.take(i as int);
            let present: bool = contains_str(&out, items[i].as_str());
            if !present {
                let item: String = items[i].clone();
                out.push(item);
                proof {
                    lemma_sviews_push(old_out, out@.last());
                }
            } else {
                proof {
                    if distinct_strs(sviews(items@)) {
                        let x = items@[i as int]@;
                        assert(has_str(sviews(taken), x));
                        let j = choose|j: int|
                            0 <= j < sviews(taken).len() && sviews(taken)[j] == x;
                        assert(sviews(items@)[j] == x);
                        assert(sviews(items@)[i as int] == x);
                        assert(false);
                    }
                }
            }
            proof {
                assert(items@.take(i + 1) =~= taken.push(items@[i as int]));
                lemma_sviews_push(taken, items@[i as int]);
                assert forall|x: Seq<char>|
                    has_str(sviews(out@), x) <==> has_str(
                        sviews(items@.take(i + 1)),
                        x,
                    ) by {
                    lemma_has_str_push(sviews(taken), items@[i as int]@, x);
                    if !present {
                        lemma_has_str_push(sviews(old_out), items@[i as int]@, x);
                    }
                }
                if distinct_strs(sviews(items@)) && !present {
                    assert(sviews(out@) =~= sviews(items@.take(i + 1)));
                }
            }
            i = i + 1;
        }
        proof {
            assert(items@.take(n as int) =~= items@);
        }
        AttributeNames(out)
    }

    /// The number of distinct attribute names.
    pub fn len(&self) -> (r: usize)
        ensures
            r == self@.len(),
    {
        self.0.len()
    }

    /// The attribute names as a list, in their stable order.
    pub fn to_vec(&self) -> (r: Vec<String>)
        ensures
            sviews(r@) == self@,
    {
        let n: usize = self.0.len();
        let mut out: Vec<String> = Vec::new();
        let mut i: usize = 0;
        while i < n
            invariant
                0 <= i <= n,
                n == self.0@.len(),
                out@.len() == i,
                forall|k: int| 0 <= k < i ==> out@[k]@ == self.0@[k]@,
            decreases n - i,
        {
            let item: String = self.0[i].clone();
            out.push(item);
            i = i + 1;
        }
        proof {
            assert(sviews(out@) =~= sviews(self.0@));
        }
        out
    }
}

/// The derived schema identifier: origin, marker segment, name, version.
pub open spec fn schema_id_of(origin: Seq<char>, name: Seq<char>, version: Seq<char>) -> Seq<
    char,
> {
    origin + ":2:"@ + name + ":"@ + version
}

/// Deriving twice from the same three inputs yields the same identifier.
pub proof fn lemma_schema_id_deterministic(
    o1: Seq<char>,
    n1: Seq<char>,
    v1: Seq<char>,
    o2: Seq<char>,
    n2: Seq<char>,
    v2: Seq<char>,
)
    requires
        o1 == o2,
        n1 == n2,
        v1 == v2,
    ensures
        schema_id_of(o1, n1, v1) == schema_id_of(o2, n2, v2),
{
}

/// Changing the version changes the derived identifier.
pub proof fn lemma_schema_id_version_sensitive(
    o: Seq<char>,
    n: Seq<char>,
    v1: Seq<char>,
    v2: Seq<char>,
)
    requires
        v1 != v2,
    ensures
        schema_id_of(o, n, v1) != schema_id_of(o, n, v2),
{
    reveal_strlit(":2:");
    reveal_strlit(":");
    if schema_id_of(o, n, v1) == schema_id_of(o, n, v2) {
        let stem = o + ":2:"@ + n + ":"@;
        assert(schema_id_of(o, n, v1) =~= stem + v1);
        assert(schema_id_of(o, n, v2) =~= stem + v2);
        assert(v1.len() == v2.len());
        assert forall|k: int| 0 <= k < v1.len() implies v1[k] == v2[k] by {
            assert((stem + v1)[stem.len() + k] == v1[k]);
            assert((stem + v2)[stem.len() + k] == v2[k]);
        }
        assert(v1 =~= v2);
        assert(false);
    }
}

/// The identifier of a schema, derived at construction time.
#[derive(Debug, Clone, PartialEq, Eq)]
pub struct SchemaId(pub String);

impl View for SchemaId {
    type V = Seq<char>;

    open spec fn view(&self) -> Seq<char> {
        self.0@
    }
}

impl Validatable for SchemaId {
    open spec fn valid(&self) -> bool {
        self@.len() > 0
    }

    open spec fn failure(&self) -> (Seq<char>, Seq<char>, Seq<char>) {
        ("SchemaId"@, "id"@, "empty identifier"@)
    }

    fn validate(&self) -> (r: Result<(), Error>)
        ensures
            r is Ok <==> self.valid(),
            r matches Err(e) ==> (e matches Error::Validation { entity, field, reason }
                && entity@ == self.failure().0 && field@ == self.failure().1 && reason@
                == self.failure().2),
    {
        if self.0.as_str().unicode_len() > 0 {
            Ok(())
        } else {
            Err(
                Error::Validation {
                    entity: String::from_str("SchemaId"),
                    field: String::from_str("id"),
                    reason: String::from_str("empty identifier"),
                },
            )
        }
    }
}

/// The current schema shape. Everything but the sequence number is
/// immutable after construction; the sequence number is assigned once a
/// ledger accepts the schema.
#[derive(Debug, Clone, PartialEq, Eq)]
pub struct SchemaV1 {
    pub id: SchemaId,
    pub name: String,
    pub version: String,
    pub attr_names: AttributeNames,
    pub seq_no: Option<u32>,
}

/// A versioned schema entity; decoding rejects version tags it does not
/// know rather than guessing a default.
#[derive(Debug, Clone, PartialEq, Eq)]
pub enum Schema {
    SchemaV1(SchemaV1),
}

impl Schema {
    /// The payload of the single current variant.
    pub open spec fn v1(self) -> SchemaV1 {
        match self {
            Schema::SchemaV1(v) => v,
        }
    }

    /// The derived schema identifier.
    pub fn schema_id(&self) -> (r: String)
        ensures
            r@ == self.v1().id@,
    {
        match self {
            Schema::SchemaV1(v) => v.id.0.clone(),
        }
    }

    /// The ledger-assigned sequence number, if one has been set.
    pub fn get_seq_no(&self) -> (r: Option<u32>)
        ensures
            r == self.v1().seq_no,
    {
        match self {
            Schema::SchemaV1(v) => v.seq_no,
        }
    }

    /// Assigns the sequence number; every other field is left unchanged.
    pub fn set_seq_no(&mut self, seq_no: Option<u32>)
        ensures
            final (self).v1() == (SchemaV1 { seq_no, ..old(self).v1() }),
    {
        match self {
            Schema::SchemaV1(v) => {
                v.seq_no = seq_no;
            },
        }
    }

    /// The schema name.
    pub fn name(&self) -> (r: String)
        ensures
            r@ == self.v1().name@,
    {
        match self {
            Schema::SchemaV1(v) => v.name.clone(),
        }
    }

    /// The schema version.
    pub fn version(&self) -> (r: String)
        ensures
            r@ == self.v1().version@,
    {
        match self {
            Schema::SchemaV1(v) => v.version.clone(),
        }
    }

    /// The attribute names, in their stable order.
    pub fn attr_names(&self) -> (r: Vec<String>)
        ensures
            sviews(r@) == self.v1().attr_names@,
    {
        match self {
            Schema::SchemaV1(v) => v.attr_names.to_vec(),
        }
    }
}

impl Validatable for Schema {
    open spec fn valid(&self) -> bool {
        self.v1().id@.len() > 0 && self.v1().name@.len() > 0 && self.v1().version@.len() > 0
            && self.v1().attr_names@.len() > 0
    }

    /// The identifier is checked first, then the name, the version, and
    /// the attribute set.
    open spec fn failure(&self) -> (Seq<char>, Seq<char>, Seq<char>) {
        if !self.v1().id.valid() {
            self.v1().id.failure()
        } else if self.v1().name@.len() == 0 {
            ("Schema"@, "name"@, "empty name"@)
        } else if self.v1().version@.len() == 0 {
            ("Schema"@, "version"@, "empty version"@)
        } else {
            ("Schema"@, "attr_names"@, "empty attribute set"@)
        }
    }

    fn validate(&self) -> (r: Result<(), Error>)
        ensures
            r is Ok <==> self.valid(),
            r matches Err(e) ==> (e matches Error::Validation { entity, field, reason }
                && entity@ == self.failure().0 && field@ == self.failure().1 && reason@
                == self.failure().2),
    {
        match self {
            Schema::SchemaV1(v) => {
                match v.id.validate() {
                    Err(e) => {
                        return Err(e);
                    },
                    Ok(_) => {},
                }
                if v.name.as_str().unicode_len() == 0 {
                    return Err(
                        Error::Validation {
                            entity: String::from_str("Schema"),
                            field: String::from_str("name"),
                            reason: String::from_str("empty name"),
                        },
                    );
                }
                if v.version.as_str().unicode_len() == 0 {
                    return Err(
                        Error::Validation {
                            entity: String::from_str("Schema"),
                            field: String::from_str("version"),
                            reason: String::from_str("empty version"),
                        },
                    );
                }
                if v.attr_names.len() == 0 {
                    return Err(
                        Error::Validation {
                            entity: String::from_str("Schema"),
                            field: String::from_str("attr_names"),
                            reason: String::from_str("empty attribute set"),
                        },
                    );
                }
                Ok(())
            },
        }
    }
}

/// Builds a new schema from an origin identifier, a name, a version, and a
/// set of attribute names: the identifier is derived canonically from the
/// three text inputs, and the sequence number starts unset. Fails with a
/// build error when the origin fails validation, the name or version is
/// empty, or the attribute set is empty.
pub fn new_schema(
    origin: &DidValue,
    name: &str,
    version: &str,
    attr_names: AttributeNames,
) -> (r: Result<Schema, Error>)
    ensures
        r is Ok <==> origin.valid() && name@.len() > 0 && version@.len() > 0 && attr_names@.len()
            > 0,
        r matches Ok(s) ==> s.v1().id@ == schema_id_of(origin@, name@, version@) && s.v1().name@
            == name@ && s.v1().version@ == version@ && s.v1().attr_names == attr_names
            && s.v1().seq_no is None,
        r matches Err(e) ==> e.is_build(),
{
    match origin.validate() {
        Err(_) => {
            return Err(Error::Build { reason: String::from_str("invalid origin identifier") });
        },
        Ok(_) => {},
    }
    if name.unicode_len() == 0 {
        return Err(Error::Build { reason: String::from_str("empty schema name") });
    }
    if version.unicode_len() == 0 {
        return Err(Error::Build { reason: String::from_str("empty schema version") });
    }
    if attr_names.len() == 0 {
        return Err(Error::Build { reason: String::from_str("empty attribute set") });
    }
    let id: String = String::from_str(origin.0.as_str()).concat(":2:").concat(name).concat(
        ":",
    ).concat(version);
    proof {
        assert(id@ =~= schema_id_of(origin@, name@, version@));
    }
    Ok(
        Schema::SchemaV1(
            SchemaV1 {
                id: SchemaId(id),
                name: String::from_str(name),
                version: String::from_str(version),
                attr_names,
                seq_no: None,
            },
        ),
    )
}

} // verus!
