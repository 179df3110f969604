//! What messages say: each names what it is about, and messages of different
//! errors differ.
use crate::cluster::discovery::DiscoveryError;
use crate::dsl;
use crate::dsl::validator::ValidationErrorView;
use crate::environment::ConfigErrorView;
use crate::index::builder::RebuildError;
use crate::query::ExecutionErrorView;
use crate::schema::evolution;
use crate::schema::ScalarType;
use crate::storage::StorageErrorView;
use crate::text;
use vstd::prelude::*;

verus! {

/// That a part stands in a text.
pub open spec fn says(t: Seq<char>, part: Seq<char>) -> bool {
    exists|i: int| 0 <= i && i + part.len() <= t.len() && #[trigger] t.subrange(i, i + part.len())
        == part
}

proof fn lemma_says(a: Seq<char>, part: Seq<char>, b: Seq<char>)
    ensures
        says(a + part + b, part),
        says(a + part, part),
{
    let i: int = a.len() as int;
    let t = a + part + b;
    assert(t.subrange(i, i + part.len()) =~= part);
    let u = a + part;
    assert(u.subrange(i, i + part.len()) =~= part);
}

/// A fault of a query names the label, edge type, property or alias that it is
/// about, and the number of hops or steps where that is what is wrong.
pub proof fn law_faults_name_what_they_are_about(fault: ValidationErrorView)
    ensures
        match fault {
            ValidationErrorView::UnknownLabel(l) => says(fault.text(), l),
            ValidationErrorView::UnknownEdgeType(t) => says(fault.text(), t),
            ValidationErrorView::UnknownProperty { label, property } => says(fault.text(), label)
                && says(fault.text(), property),
            ValidationErrorView::IncompatibleOperator { property } => says(fault.text(), property),
            ValidationErrorView::UnknownAlias(a) => says(fault.text(), a),
            ValidationErrorView::EdgeAliasOnVariableLengthHop { alias, min, max } => says(
                fault.text(),
                alias,
            ) && says(fault.text(), text::decimal_text(min as int)) && says(
                fault.text(),
                text::decimal_text(max as int),
            ),
            ValidationErrorView::NotExistsAnchorNotPreBound(a) => says(fault.text(), a),
            ValidationErrorView::NotExistsWrongShape(n) => says(
                fault.text(),
                text::decimal_text(n as int),
            ),
            _ => true,
        },
{
    match fault {
        ValidationErrorView::UnknownLabel(l) => {
            lemma_says("unknown label: "@, l, seq![]);
        },
        ValidationErrorView::UnknownEdgeType(t) => {
            lemma_says("unknown edge type: "@, t, seq![]);
        },
        ValidationErrorView::UnknownProperty { label, property } => {
            lemma_says("unknown property "@, property, " on "@ + label);
            lemma_says("unknown property "@ + property + " on "@, label, seq![]);
            assert("unknown property "@ + property + (" on "@ + label) =~= fault.text());
        },
        ValidationErrorView::IncompatibleOperator { property } => {
            lemma_says("comparison operator not valid for property type: "@, property, seq![]);
        },
        ValidationErrorView::UnknownAlias(a) => {
            lemma_says("alias "@, a, " is not bound by this pattern"@);
        },
        ValidationErrorView::EdgeAliasOnVariableLengthHop { alias, min, max } => {
            let head = "edge alias "@;
            let middle = " is on a variable-length hop (*"@;
            let tail = ") — edge aliases are only valid on a single hop"@;
            let x = text::decimal_text(min as int);
            let y = text::decimal_text(max as int);
            lemma_says(head, alias, middle + x + ".."@ + y + tail);
            assert(head + alias + (middle + x + ".."@ + y + tail) =~= fault.text());
            lemma_says(head + alias + middle, x, ".."@ + y + tail);
            assert(head + alias + middle + x + (".."@ + y + tail) =~= fault.text());
            lemma_says(head + alias + middle + x + ".."@, y, tail);
        },
        ValidationErrorView::NotExistsAnchorNotPreBound(a) => {
            lemma_says(
                "NOT EXISTS { ... } anchor "@,
                a,
                " must already be bound by the outer MATCH (no label/properties on it here)"@,
            );
        },
        ValidationErrorView::NotExistsWrongShape(n) => {
            lemma_says(
                "NOT EXISTS { ... } pattern must be exactly one edge between two already-bound nodes, got "@,
                text::decimal_text(n as int),
                " pattern step(s)"@,
            );
        },
        _ => {},
    }
}

/// A setting that is missing or wrong is named, and what it was set to is
/// shown.
pub proof fn law_settings_are_named(e: ConfigErrorView)
    ensures
        match e {
            ConfigErrorView::MissingEnv(name) => says(e.text(), name),
            ConfigErrorView::InvalidEnv(name, value) => says(e.text(), name) && says(
                e.text(),
                value,
            ),
        },
{
    match e {
        ConfigErrorView::MissingEnv(name) => {
            lemma_says("missing required environment variable "@, name, seq![]);
        },
        ConfigErrorView::InvalidEnv(name, value) => {
            lemma_says("invalid value for "@, name, ": "@ + value);
            assert("invalid value for "@ + name + (": "@ + value) =~= e.text());
            lemma_says("invalid value for "@ + name + ": "@, value, seq![]);
        },
    }
}

proof fn lemma_same_end(head: Seq<char>, a: Seq<char>, b: Seq<char>)
    requires
        head + a == head + b,
    ensures
        a == b,
{
    assert((head + a).skip(head.len() as int) =~= a);
    assert((head + b).skip(head.len() as int) =~= b);
}

/// Errors of the store that say the same are the same.
pub proof fn law_errors_of_the_store_are_told_apart(a: StorageErrorView, b: StorageErrorView)
    ensures
        a.text() == b.text() ==> a == b,
{
    reveal_strlit("table not found for ");
    reveal_strlit("snapshot resolution failed: ");
    reveal_strlit("row does not conform to schema: ");
    reveal_strlit("underlying Iceberg/object-store error: ");
    if a.text() == b.text() {
        assert(a.text()[0] == b.text()[0]);
        match (a, b) {
            (StorageErrorView::TableNotFound(x), StorageErrorView::TableNotFound(y)) => {
                lemma_same_end("table not found for "@, x, y);
            },
            (StorageErrorView::SnapshotResolution(x), StorageErrorView::SnapshotResolution(y)) => {
                lemma_same_end("snapshot resolution failed: "@, x, y);
            },
            (StorageErrorView::NonConformingRow(x), StorageErrorView::NonConformingRow(y)) => {
                lemma_same_end("row does not conform to schema: "@, x, y);
            },
            (StorageErrorView::Backend(x), StorageErrorView::Backend(y)) => {
                lemma_same_end("underlying Iceberg/object-store error: "@, x, y);
            },
            _ => {},
        }
    }
}

/// Errors of an execution that say the same are the same.
pub proof fn law_errors_of_an_execution_are_told_apart(
    a: ExecutionErrorView,
    b: ExecutionErrorView,
)
    ensures
        a.text() == b.text() ==> a == b,
{
    reveal_strlit("index generation unavailable");
    reveal_strlit("plan step referenced unknown alias: ");
    reveal_strlit("partition RPC failed: ");
    if a.text() == b.text() {
        assert(a.text()[0] == b.text()[0]);
        assert(a.text()[1] == b.text()[1]);
        match (a, b) {
            (ExecutionErrorView::UnknownAlias(x), ExecutionErrorView::UnknownAlias(y)) => {
                lemma_same_end("plan step referenced unknown alias: "@, x, y);
            },
            (ExecutionErrorView::Rpc(x), ExecutionErrorView::Rpc(y)) => {
                lemma_same_end("partition RPC failed: "@, x, y);
            },
            _ => {},
        }
    }
}

/// A failed rebuild says what the store or the schema said, a failed
/// discovery what the cluster said, and a syntax error where it is and what
/// was looked for.
pub proof fn law_causes_are_passed_on(
    rebuild: RebuildError,
    discovery: DiscoveryError,
    pos: int,
    message: Seq<char>,
)
    ensures
        match rebuild {
            RebuildError::Storage(e) => says(rebuild.text(), e@.text()),
            RebuildError::Schema(e) => says(rebuild.text(), e@),
        },
        match discovery {
            DiscoveryError::KubernetesApi(m) => says(discovery.text(), m@),
        },
        says(dsl::syntax_text(pos, message), text::decimal_text(pos)),
        says(dsl::syntax_text(pos, message), message),
{
    match rebuild {
        RebuildError::Storage(e) => {
            lemma_says("storage error while rebuilding index: "@, e@.text(), seq![]);
        },
        RebuildError::Schema(e) => {
            lemma_says("schema error while rebuilding index: "@, e@, seq![]);
        },
    }
    match discovery {
        DiscoveryError::KubernetesApi(m) => {
            lemma_says("Kubernetes API error: "@, m@, seq![]);
        },
    }
    let head = "syntax error at position "@;
    lemma_says(head, text::decimal_text(pos), ": "@ + message);
    assert(head + text::decimal_text(pos) + (": "@ + message) =~= dsl::syntax_text(pos, message));
    lemma_says(head + text::decimal_text(pos) + ": "@, message, seq![]);
}

proof fn lemma_same_middle(head: Seq<char>, a: Seq<char>, b: Seq<char>, tail: Seq<char>)
    requires
        head + a + tail == head + b + tail,
    ensures
        a == b,
{
    let t = head + a + tail;
    let u = head + b + tail;
    assert(a.len() == b.len()) by {
        assert(t.len() == head.len() + a.len() + tail.len());
        assert(u.len() == head.len() + b.len() + tail.len());
    }
    let i: int = head.len() as int;
    assert(t.subrange(i, i + a.len()) =~= a);
    assert(u.subrange(i, i + b.len()) =~= b);
}

/// Types that are named alike are the same.
pub proof fn law_types_are_told_apart(a: ScalarType, b: ScalarType)
    ensures
        evolution::type_text(a) == evolution::type_text(b) ==> a == b,
    decreases a,
{
    reveal_strlit("Int64");
    reveal_strlit("Float64");
    reveal_strlit("Bool");
    reveal_strlit("String");
    reveal_strlit("Timestamp");
    reveal_strlit("Bytes");
    reveal_strlit("List(");
    reveal_strlit("Vector { dim: ");
    let t = evolution::type_text(a);
    let u = evolution::type_text(b);
    if t == u {
        assert(t[0] == u[0] && t[1] == u[1]);
        match (a, b) {
            (ScalarType::List(x), ScalarType::List(y)) => {
                lemma_same_middle(
                    "List("@,
                    evolution::type_text(*x),
                    evolution::type_text(*y),
                    ")"@,
                );
                law_types_are_told_apart(*x, *y);
            },
            (ScalarType::Vector { dim: x }, ScalarType::Vector { dim: y }) => {
                lemma_same_middle(
                    "Vector { dim: "@,
                    text::decimal_text(x as int),
                    text::decimal_text(y as int),
                    " }"@,
                );
                text::law_decimal_text_reads_back(x as int);
                text::law_decimal_text_reads_back(y as int);
            },
            _ => {},
        }
    }
}

} // verus!
