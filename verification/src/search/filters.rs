//! What a search leaves out.
use crate::json::Json;
use crate::text;
use crate::time::Timestamp;
use crate::types;
use crate::types::edge::{EntityEdge, EntityEdgeView};
use vstd::prelude::*;

verus! {

/// How a value is compared with another.
#[derive(Clone, Copy, Debug, PartialEq, Eq, Structural)]
pub enum ComparisonOperator {
    Eq,
    Neq,
    Gt,
    Lt,
    Gte,
    Lte,
    IsNull,
    IsNotNull,
}

impl ComparisonOperator {
    /// The operator in a query.
    pub open spec fn cypher(self) -> Seq<char> {
        match self {
            ComparisonOperator::Eq => "="@,
            ComparisonOperator::Neq => "<>"@,
            ComparisonOperator::Gt => ">"@,
            ComparisonOperator::Lt => "<"@,
            ComparisonOperator::Gte => ">="@,
            ComparisonOperator::Lte => "<="@,
            ComparisonOperator::IsNull => "IS NULL"@,
            ComparisonOperator::IsNotNull => "IS NOT NULL"@,
        }
    }

    /// The operator in a query.
    pub fn as_cypher(&self) -> (r: &'static str)
        ensures
            r@ == self.cypher(),
    {
        match self {
            ComparisonOperator::Eq => "=",
            ComparisonOperator::Neq => "<>",
            ComparisonOperator::Gt => ">",
            ComparisonOperator::Lt => "<",
            ComparisonOperator::Gte => ">=",
            ComparisonOperator::Lte => "<=",
            ComparisonOperator::IsNull => "IS NULL",
            ComparisonOperator::IsNotNull => "IS NOT NULL",
        }
    }
}

/// A condition on a date. Without a date it asks only whether there is one.
#[derive(Clone, Copy, Debug)]
pub struct DateFilter {
    pub date: Option<Timestamp>,
    pub comparison_operator: ComparisonOperator,
}

/// A condition on a property.
#[derive(Debug)]
pub struct PropertyFilter {
    pub property_name: String,
    pub property_value: Json,
    pub comparison_operator: ComparisonOperator,
}

/// The conditions on the results of a search. Of the groups of conditions on a date one has to
/// hold as a whole.
#[derive(Debug)]
pub struct SearchFilters {
    pub node_labels: Option<Vec<String>>,
    pub edge_types: Option<Vec<String>>,
    pub valid_at: Option<Vec<Vec<DateFilter>>>,
    pub invalid_at: Option<Vec<Vec<DateFilter>>>,
    pub created_at: Option<Vec<Vec<DateFilter>>>,
    pub expired_at: Option<Vec<Vec<DateFilter>>>,
    pub edge_uuids: Option<Vec<String>>,
    pub property_filters: Option<Vec<PropertyFilter>>,
}

impl Default for SearchFilters {
    /// No condition.
    fn default() -> (r: SearchFilters)
        ensures
            r == (SearchFilters {
                node_labels: None,
                edge_types: None,
                valid_at: None,
                invalid_at: None,
                created_at: None,
                expired_at: None,
                edge_uuids: None,
                property_filters: None,
            }),
    {
        SearchFilters {
            node_labels: None,
            edge_types: None,
            valid_at: None,
            invalid_at: None,
            created_at: None,
            expired_at: None,
            edge_uuids: None,
            property_filters: None,
        }
    }
}

/// The condition that a fact is among given ones.
pub fn only_edges(edges: &Vec<EntityEdge>) -> (r: SearchFilters)
    ensures
        r.edge_uuids is Some,
        text::views(r.edge_uuids->0@) == types::edge_views(edges@).map_values(|e: EntityEdgeView| e.uuid),
        r == (SearchFilters {
            node_labels: None,
            edge_types: None,
            valid_at: None,
            invalid_at: None,
            created_at: None,
            expired_at: None,
            edge_uuids: r.edge_uuids,
            property_filters: None,
        }),
{
    let mut uuids: Vec<String> = Vec::new();
    let mut i: usize = 0;
    while i < edges.len()
        invariant
            i <= edges@.len(),
            uuids@.len() == i,
            forall|j: int| 0 <= j < i ==> (#[trigger] uuids@[j])@ == edges@[j]@.uuid,
        decreases edges.len() - i,
    {
        uuids.push(edges[i].uuid.clone());
        i += 1;
    }
    assert(text::views(uuids@) =~= types::edge_views(edges@).map_values(|e: EntityEdgeView| e.uuid));
    let mut filters = SearchFilters::default();
    filters.edge_uuids = Some(uuids);
    filters
}

} // verus!
