//! Filters of a search, and its empty result.
use chronicle_core::helpers::utc_now;
use chronicle_core::json::Json;
use chronicle_core::search::{
    ComparisonOperator, DateFilter, PropertyFilter, SearchFilters, SearchResults,
};

#[test]
fn comparison_operator_as_cypher_eq() {
    assert_eq!(ComparisonOperator::Eq.as_cypher(), "=");
}

#[test]
fn comparison_operator_as_cypher_neq() {
    assert_eq!(ComparisonOperator::Neq.as_cypher(), "<>");
}

#[test]
fn comparison_operator_as_cypher_gt() {
    assert_eq!(ComparisonOperator::Gt.as_cypher(), ">");
}

#[test]
fn comparison_operator_as_cypher_lt() {
    assert_eq!(ComparisonOperator::Lt.as_cypher(), "<");
}

#[test]
fn comparison_operator_as_cypher_gte() {
    assert_eq!(ComparisonOperator::Gte.as_cypher(), ">=");
}

#[test]
fn comparison_operator_as_cypher_lte() {
    assert_eq!(ComparisonOperator::Lte.as_cypher(), "<=");
}

#[test]
fn comparison_operator_as_cypher_is_null() {
    assert_eq!(ComparisonOperator::IsNull.as_cypher(), "IS NULL");
}

#[test]
fn comparison_operator_as_cypher_is_not_null() {
    assert_eq!(ComparisonOperator::IsNotNull.as_cypher(), "IS NOT NULL");
}

#[test]
fn search_filters_default_all_none() {
    let f = SearchFilters::default();
    assert!(f.node_labels.is_none());
    assert!(f.edge_types.is_none());
    assert!(f.valid_at.is_none());
    assert!(f.invalid_at.is_none());
    assert!(f.created_at.is_none());
    assert!(f.expired_at.is_none());
    assert!(f.edge_uuids.is_none());
    assert!(f.property_filters.is_none());
}

#[test]
fn date_filter_with_null_operator_has_no_date() {
    let f = DateFilter {
        date: None,
        comparison_operator: ComparisonOperator::IsNull,
    };
    assert!(f.date.is_none());
    assert_eq!(f.comparison_operator.as_cypher(), "IS NULL");
}

#[test]
fn date_filter_with_value_operator_has_date() {
    let now = utc_now();
    let f = DateFilter {
        date: Some(now),
        comparison_operator: ComparisonOperator::Gte,
    };
    assert!(f.date.is_some());
    assert_eq!(f.comparison_operator.as_cypher(), ">=");
}

#[test]
fn property_filter_accepts_json_value_types() {
    let string_filter = PropertyFilter {
        property_name: "status".to_string(),
        property_value: Json::Str("active".to_string()),
        comparison_operator: ComparisonOperator::Eq,
    };
    assert_eq!(string_filter.property_name, "status");

    let numeric_filter = PropertyFilter {
        property_name: "score".to_string(),
        property_value: Json::Int(42),
        comparison_operator: ComparisonOperator::Gt,
    };
    assert_eq!(numeric_filter.comparison_operator.as_cypher(), ">");

    let null_filter = PropertyFilter {
        property_name: "deleted_at".to_string(),
        property_value: Json::Null,
        comparison_operator: ComparisonOperator::IsNull,
    };
    assert!(matches!(null_filter.property_value, Json::Null));
}

#[test]
fn default_is_all_empty() {
    let r = SearchResults::default();
    assert!(r.edges.is_empty());
    assert!(r.edge_reranker_scores.is_empty());
    assert!(r.nodes.is_empty());
    assert!(r.node_reranker_scores.is_empty());
    assert!(r.episodes.is_empty());
    assert!(r.episode_reranker_scores.is_empty());
    assert!(r.communities.is_empty());
    assert!(r.community_reranker_scores.is_empty());
}
