use ben_process::error::Error;
use ben_process::graph::{
    load_graph, parse_numeric, parse_numeric_opt, parse_region_id, CsrAdjacency, EdgeWeightRequest,
    Graph, GraphFault, GraphLoadRequest, JsonField, JsonGraphData, NodeId, NumericProblem, Reading,
    Record,
};
use ben_process::graph_check::{
    audit_edge_weights, check_edge_values, fault_error, matches_any_node, numeric_problem_message,
    uneven_weight_error, weight_fault_error, weight_mentions, EdgeValues, EdgeWeightFault,
    FaultWords,
};
use serde_json::Value;

/// What a JSON value stands for as a number.
fn reading(value: Option<f64>) -> Reading<f64> {
    match value {
        Some(x) if x.is_finite() => Reading::Finite(x),
        Some(x) if x.is_nan() => Reading::NotANumber,
        Some(_) => Reading::Infinite,
        None => Reading::Unreadable,
    }
}

fn field(value: &Value) -> JsonField<f64> {
    match value {
        Value::Null => JsonField::Null,
        Value::Bool(b) => JsonField::Bool(*b),
        Value::Number(n) => JsonField::Number {
            text: value.to_string(),
            reading: reading(n.as_f64()),
        },
        Value::String(s) => JsonField::Text {
            value: s.clone(),
            reading: reading(s.parse::<f64>().ok()),
        },
        _ => JsonField::Other,
    }
}

fn record(value: &Value) -> Record<f64> {
    Record {
        id: value.get("id").map(|id| NodeId {
            text: id.to_string(),
            unsigned: id.as_u64(),
        }),
        fields: value
            .as_object()
            .map(|object| {
                object
                    .iter()
                    .map(|(key, value)| (key.clone(), field(value)))
                    .collect()
            })
            .unwrap_or_default(),
    }
}

fn node(json: &str) -> Record<f64> {
    record(&serde_json::from_str(json).unwrap())
}

fn scalar(json: &str) -> JsonField<f64> {
    field(&serde_json::from_str(json).unwrap())
}

fn data(value: &Value) -> JsonGraphData<f64> {
    JsonGraphData {
        directed: value["directed"].as_bool().unwrap(),
        multigraph: value["multigraph"].as_bool().unwrap(),
        nodes: value["nodes"].as_array().unwrap().iter().map(record).collect(),
        adjacency: value["adjacency"]
            .as_array()
            .unwrap()
            .iter()
            .map(|list| list.as_array().map(|list| list.iter().map(record).collect()))
            .collect(),
    }
}

fn request() -> GraphLoadRequest<f64> {
    GraphLoadRequest {
        numeric_keys: vec![],
        partial_numeric_keys: vec![],
        region_keys: vec![],
        edge_weight: None,
        need_adjacency: false,
    }
}

fn weight(key: &str, default_value: f64) -> Option<EdgeWeightRequest<f64>> {
    Some(EdgeWeightRequest {
        key: key.to_string(),
        default_value,
    })
}

/// The words for a fault, taken from the JSON that it points into.
fn words(value: &Value, keys: &[String], fault: GraphFault) -> FaultWords {
    let mut words = FaultWords {
        file_path: "graph.json".to_string(),
        key: String::new(),
        id: String::new(),
        value: String::new(),
        record: String::new(),
        node_count: value["nodes"].as_array().unwrap().len(),
    };
    match fault {
        GraphFault::DuplicateId { node } => words.id = value["nodes"][node]["id"].to_string(),
        GraphFault::Numeric { key, node, .. } => {
            words.key = keys[key].clone();
            words.value = format!("{:?}", value["nodes"][node][&keys[key]]);
            words.record = format!("{:?}", value["nodes"][node]);
        }
        GraphFault::EdgeWithoutId { entry, edge }
        | GraphFault::UnknownId { entry, edge }
        | GraphFault::IdNotNumeric { entry, edge }
        | GraphFault::IdOutOfRange { entry, edge, .. } => {
            words.id = value["adjacency"][entry][edge]["id"].to_string();
            words.record = format!("{:?}", value["adjacency"][entry][edge]);
        }
        _ => {}
    }
    words
}

fn load(json: &str, request: GraphLoadRequest<f64>) -> Result<Graph<f64>, Error> {
    let value: Value = serde_json::from_str(json).unwrap();
    let keys = request.numeric_keys.clone();
    load_graph(&data(&value), request, 0.0).map_err(|fault| {
        let words = words(&value, &keys, fault);
        fault_error(fault, &words)
    })
}

fn graph(json: &str) -> JsonGraphData<f64> {
    data(&serde_json::from_str(json).unwrap())
}

#[test]
fn parse_region_id_treats_blank_and_nan_strings_as_missing() {
    let node = node(
        r#"{
        "blank": "   ",
        "nan": " NaN ",
        "null": null,
        "bool": true,
        "number": 7,
        "name": " county-a "
    }"#,
    );
    let key = |name: &str| name.to_string();

    assert_eq!(parse_region_id(&node, &key("blank")), None);
    assert_eq!(parse_region_id(&node, &key("nan")), None);
    assert_eq!(parse_region_id(&node, &key("null")), None);
    assert_eq!(parse_region_id(&node, &key("bool")), Some("true".to_string()));
    assert_eq!(parse_region_id(&node, &key("number")), Some("7".to_string()));
    assert_eq!(
        parse_region_id(&node, &key("name")),
        Some("county-a".to_string())
    );
}

#[test]
fn parse_numeric_accepts_numbers_and_numeric_strings() {
    let pop = "pop".to_string();
    assert_eq!(parse_numeric(&node(r#"{ "pop": 3.5 }"#), &pop).unwrap(), 3.5);
    assert_eq!(
        parse_numeric(&node(r#"{ "pop": "4.25" }"#), &pop).unwrap(),
        4.25
    );
}

#[test]
fn parse_numeric_errors_on_invalid_string() {
    let value: Value = serde_json::from_str(r#"{ "pop": "not-a-number" }"#).unwrap();
    let problem = parse_numeric(&record(&value), &"pop".to_string()).unwrap_err();
    let err = numeric_problem_message(
        problem,
        &FaultWords {
            file_path: String::new(),
            key: "pop".to_string(),
            id: String::new(),
            value: format!("{:?}", value["pop"]),
            record: format!("{value:?}"),
            node_count: 1,
        },
    );
    assert!(
        err.contains("invalid numeric graph value for key \"pop\""),
        "unexpected error: {err}"
    );
}

#[test]
fn parse_numeric_opt_ignores_unparseable_values() {
    assert_eq!(parse_numeric_opt(&scalar("2.0")), Some(2.0));
    assert_eq!(parse_numeric_opt(&scalar("\"2.5\"")), Some(2.5));
    assert_eq!(parse_numeric_opt(&scalar("\"oops\"")), None);
    assert_eq!(parse_numeric_opt(&scalar("false")), None);
}

#[test]
fn load_graph_dedups_sorts_and_populates_requested_columns() {
    let graph = load(
        r#"{
        "directed": false,
        "multigraph": false,
        "graph": [],
        "nodes": [
            { "pop": 1.0, "region": "A" },
            { "pop": "2.5", "region": "A" },
            { "pop": 3.0, "region": " nan " }
        ],
        "adjacency": [
            [ { "id": 1, "weight": 2.0 }, { "id": 2, "weight": "oops" } ],
            [ { "id": 0, "weight": 4.5 }, { "id": 2 } ],
            [ { "id": 0, "weight": 9.0 }, { "id": 1, "weight": "3.5" } ]
        ]
    }"#,
        GraphLoadRequest {
            numeric_keys: vec!["pop".to_string()],
            region_keys: vec!["region".to_string()],
            edge_weight: weight("weight", 1.0),
            ..request()
        },
    )
    .unwrap();

    assert_eq!(graph.attr_columns, vec![vec![1.0, 2.5, 3.0]]);
    assert_eq!(graph.numeric_column_index("pop"), Some(0));

    assert_eq!(graph.region_columns, vec![vec![Some(0), Some(0), None]]);
    assert_eq!(graph.region_column_index("region"), Some(0));
    assert_eq!(graph.region_id_counts, vec![1]);

    assert_eq!(graph.edges, vec![(0, 1), (0, 2), (1, 2)]);
    assert_eq!(graph.edge_weights, Some(vec![4.5, 9.0, 3.5]));
    assert_eq!(graph.edge_weight_column(), Some(&[4.5, 9.0, 3.5][..]));
}

#[test]
fn load_graph_errors_when_strict_numeric_key_is_missing_from_nodes() {
    let err = load(
        r#"{
        "directed": false,
        "multigraph": false,
        "graph": [],
        "nodes": [
            { "pop": 1.0 },
            { "pop": 2.0 }
        ],
        "adjacency": [
            [ { "id": 1 } ],
            [ { "id": 0 } ]
        ]
    }"#,
        GraphLoadRequest {
            numeric_keys: vec!["does_not_exist".to_string()],
            ..request()
        },
    )
    .unwrap_err()
    .message();
    assert!(
        err.contains("failed to load numeric graph key \"does_not_exist\" at node 0"),
        "unexpected error: {err}"
    );
}

#[test]
fn load_graph_defaults_missing_weights_to_one() {
    let graph = load(
        r#"{
        "directed": false,
        "multigraph": false,
        "graph": [],
        "nodes": [
            { "pop": 1.0 },
            { "pop": 2.0 }
        ],
        "adjacency": [
            [ { "id": 1 } ],
            [ { "id": 0, "weight": "oops" } ]
        ]
    }"#,
        GraphLoadRequest {
            edge_weight: weight("weight", 1.0),
            ..request()
        },
    )
    .unwrap();

    assert_eq!(graph.edges, vec![(0, 1)]);
    assert_eq!(graph.edge_weights, Some(vec![1.0]));
}

#[test]
fn load_graph_partial_numeric_defaults_missing_values_to_zero() {
    let graph = load(
        r#"{
        "directed": false,
        "multigraph": false,
        "graph": [],
        "nodes": [
            { "area": 1.0, "boundary_perim": 3.0 },
            { "area": 2.0 },
            { "area": 3.0, "boundary_perim": null },
            { "area": 4.0, "boundary_perim": "oops" }
        ],
        "adjacency": [[], [], [], []]
    }"#,
        GraphLoadRequest {
            numeric_keys: vec!["area".to_string()],
            partial_numeric_keys: vec!["boundary_perim".to_string()],
            ..request()
        },
    )
    .unwrap();

    assert_eq!(
        graph.numeric_column("area").unwrap(),
        vec![1.0, 2.0, 3.0, 4.0]
    );
    assert_eq!(
        graph.numeric_column("boundary_perim").unwrap(),
        vec![3.0, 0.0, 0.0, 0.0]
    );
    assert_eq!(graph.numeric_column("perim"), None);
}

#[test]
fn load_graph_uses_requested_edge_default_value() {
    let graph = load(
        r#"{
        "directed": false,
        "multigraph": false,
        "graph": [],
        "nodes": [
            { "pop": 1.0 },
            { "pop": 2.0 }
        ],
        "adjacency": [
            [ { "id": 1 } ],
            [ { "id": 0 } ]
        ]
    }"#,
        GraphLoadRequest {
            edge_weight: weight("shared_perim", 0.0),
            ..request()
        },
    )
    .unwrap();

    assert_eq!(graph.edges, vec![(0, 1)]);
    assert_eq!(graph.edge_weights, Some(vec![0.0]));
}

#[test]
fn parse_numeric_rejects_non_finite_strings() {
    let pop = "pop".to_string();
    assert!(
        parse_numeric(&node(r#"{ "pop": "NaN" }"#), &pop).is_err(),
        "parse_numeric should reject the string \"NaN\""
    );
    assert!(
        parse_numeric(&node(r#"{ "pop": "inf" }"#), &pop).is_err(),
        "parse_numeric should reject the string \"inf\""
    );
    assert!(
        parse_numeric(&node(r#"{ "pop": "Infinity" }"#), &pop).is_err(),
        "parse_numeric should reject the string \"Infinity\""
    );
}

#[test]
fn parse_numeric_opt_rejects_non_finite_strings() {
    assert_eq!(parse_numeric_opt(&scalar("\"NaN\"")), None);
    assert_eq!(parse_numeric_opt(&scalar("\"inf\"")), None);
    assert_eq!(parse_numeric_opt(&scalar("\"Infinity\"")), None);
}

#[test]
fn load_graph_rejects_directed_graph() {
    let err = load(
        r#"{
        "directed": true,
        "multigraph": false,
        "graph": [],
        "nodes": [ { "pop": 1.0 }, { "pop": 2.0 } ],
        "adjacency": [ [ { "id": 1 } ], [ { "id": 0 } ] ]
    }"#,
        request(),
    )
    .unwrap_err();
    assert!(
        err.message().contains("is marked directed"),
        "unexpected error: {err:?}"
    );
}

#[test]
fn load_graph_rejects_out_of_range_adjacency_target() {
    let result = load(
        r#"{
        "directed": false,
        "multigraph": false,
        "graph": [],
        "nodes": [ { "pop": 1.0 }, { "pop": 2.0 } ],
        "adjacency": [
            [ { "id": 1 } ],
            [ { "id": 0 }, { "id": 9 } ]
        ]
    }"#,
        request(),
    );
    assert!(
        result.is_err(),
        "load_graph should reject an adjacency target id beyond the node count, got Ok"
    );
    assert_eq!(
        result.unwrap_err().message(),
        "graph adjacency entry 1 references node id 9 but the graph has only 2 nodes"
    );
}

#[test]
fn load_graph_accepts_node_ids_matching_their_position() {
    let graph = load(
        r#"{
        "directed": false,
        "multigraph": false,
        "graph": [],
        "nodes": [ { "id": 0, "pop": 1.0 }, { "id": 1, "pop": 2.0 } ],
        "adjacency": [ [ { "id": 1 } ], [ { "id": 0 } ] ]
    }"#,
        GraphLoadRequest {
            numeric_keys: vec!["pop".to_string()],
            ..request()
        },
    )
    .unwrap();
    assert_eq!(graph.node_count, 2);
    assert_eq!(graph.edges, vec![(0, 1)]);
}

#[test]
fn load_graph_resolves_permuted_node_ids_to_positions() {
    let graph = load(
        r#"{
        "directed": false,
        "multigraph": false,
        "graph": [],
        "nodes": [
            { "id": 1, "pop": 10.0 },
            { "id": 0, "pop": 20.0 },
            { "id": 2, "pop": 30.0 }
        ],
        "adjacency": [
            [ { "id": 0 } ],
            [ { "id": 1 }, { "id": 2 } ],
            [ { "id": 0 } ]
        ]
    }"#,
        GraphLoadRequest {
            numeric_keys: vec!["pop".to_string()],
            ..request()
        },
    )
    .unwrap();
    assert_eq!(graph.edges, vec![(0, 1), (1, 2)]);
    assert_eq!(graph.attr_columns, vec![vec![10.0, 20.0, 30.0]]);
}

#[test]
fn load_graph_resolves_string_node_ids_to_positions() {
    let graph = load(
        r#"{
        "directed": false,
        "multigraph": false,
        "graph": [],
        "nodes": [ { "id": "06037", "pop": 1.0 }, { "id": "06038", "pop": 2.0 } ],
        "adjacency": [ [ { "id": "06038" } ], [ { "id": "06037" } ] ]
    }"#,
        GraphLoadRequest {
            numeric_keys: vec!["pop".to_string()],
            ..request()
        },
    )
    .unwrap();
    assert_eq!(graph.node_count, 2);
    assert_eq!(graph.edges, vec![(0, 1)]);
    assert_eq!(graph.attr_columns, vec![vec![1.0, 2.0]]);
}

#[test]
fn load_graph_rejects_duplicate_node_ids() {
    let err = load(
        r#"{
        "directed": false,
        "multigraph": false,
        "graph": [],
        "nodes": [ { "id": 0, "pop": 1.0 }, { "id": 0, "pop": 2.0 } ],
        "adjacency": [ [ { "id": 0 } ], [ { "id": 0 } ] ]
    }"#,
        request(),
    )
    .unwrap_err();
    assert!(
        err.message()
            .contains("two graph nodes share the id 0; node ids must be unique"),
        "unexpected error: {err:?}"
    );
}

#[test]
fn load_graph_rejects_partial_node_ids() {
    let err = load(
        r#"{
        "directed": false,
        "multigraph": false,
        "graph": [],
        "nodes": [ { "id": 0, "pop": 1.0 }, { "pop": 2.0 } ],
        "adjacency": [ [ { "id": 1 } ], [ { "id": 0 } ] ]
    }"#,
        request(),
    )
    .unwrap_err();
    assert!(
        err.message()
            .contains("ids must be present on every node or on none"),
        "unexpected error: {err:?}"
    );
}

#[test]
fn load_graph_rejects_adjacency_id_not_matching_any_node() {
    let err = load(
        r#"{
        "directed": false,
        "multigraph": false,
        "graph": [],
        "nodes": [ { "id": 0, "pop": 1.0 }, { "id": 1, "pop": 2.0 } ],
        "adjacency": [ [ { "id": 9 } ], [ { "id": 0 } ] ]
    }"#,
        request(),
    )
    .unwrap_err();
    assert!(
        err.message()
            .contains("references id 9 which is not the id of any node"),
        "unexpected error: {err:?}"
    );
}

#[test]
fn load_graph_rejects_adjacency_node_count_mismatch() {
    let result = load(
        r#"{
        "directed": false,
        "multigraph": false,
        "graph": [],
        "nodes": [ { "pop": 1.0 }, { "pop": 2.0 }, { "pop": 3.0 } ],
        "adjacency": [
            [ { "id": 1 } ],
            [ { "id": 0 } ]
        ]
    }"#,
        request(),
    );
    assert!(
        result.is_err(),
        "load_graph should reject an adjacency list whose length differs from the node count, got Ok"
    );
    assert_eq!(
        result.unwrap_err().message(),
        "graph has 3 nodes but 2 adjacency lists; node and adjacency counts must match"
    );
}

#[test]
fn numeric_problems_are_told_apart() {
    let pop = "pop".to_string();
    let problem = |json: &str| parse_numeric(&node(json), &pop).unwrap_err();
    assert_eq!(problem("{}"), NumericProblem::Missing);
    assert_eq!(problem(r#"{ "pop": "x" }"#), NumericProblem::Invalid);
    assert_eq!(problem(r#"{ "pop": [] }"#), NumericProblem::Invalid);
    assert_eq!(problem(r#"{ "pop": null }"#), NumericProblem::Invalid);
    assert_eq!(problem(r#"{ "pop": "-inf" }"#), NumericProblem::NonFinite);
    let unreadable = Record {
        id: None,
        fields: vec![(
            pop.clone(),
            JsonField::Number {
                text: "1e999".to_string(),
                reading: Reading::<f64>::Unreadable,
            },
        )],
    };
    assert_eq!(
        parse_numeric(&unreadable, &pop).unwrap_err(),
        NumericProblem::NotReal
    );
    let words = FaultWords {
        file_path: String::new(),
        key: "a \"key\"".to_string(),
        id: String::new(),
        value: "VALUE".to_string(),
        record: "NODE".to_string(),
        node_count: 1,
    };
    assert_eq!(
        numeric_problem_message(NumericProblem::Missing, &words),
        "missing numeric graph key \"a \\\"key\\\"\" on node NODE"
    );
    assert_eq!(
        numeric_problem_message(NumericProblem::NotReal, &words),
        "non-f64 numeric graph value for key \"a \\\"key\\\"\": VALUE"
    );
    assert_eq!(
        numeric_problem_message(NumericProblem::NonFinite, &words),
        "non-finite numeric graph value for key \"a \\\"key\\\"\": VALUE on node NODE"
    );
}

#[test]
fn adjacency_faults_are_told_apart() {
    let fault = |adjacency: &str| {
        let json = format!(
            r#"{{ "directed": false, "multigraph": false, "nodes": [{{}}, {{}}],
                 "adjacency": {adjacency} }}"#
        );
        load(&json, request()).unwrap_err().message()
    };
    assert_eq!(fault("[[], 3]"), "graph adjacency entry 1 is not an array");
    assert!(fault(r#"[[], [{ "weight": 1 }]]"#)
        .starts_with("graph adjacency entry 1 has edge without id: Object {"));
    assert!(fault(r#"[[{ "id": "0" }], []]"#)
        .starts_with("graph adjacency entry 0 has edge without numeric id: Object {"));
    assert_eq!(
        fault(r#"[[{ "id": 18446744073709551615 }], []]"#),
        "graph adjacency entry 0 references node id 18446744073709551615 \
         but the graph has only 2 nodes"
    );
}

#[test]
fn directed_graph_is_named_with_quotes() {
    let words = FaultWords {
        file_path: "a\tb.json".to_string(),
        key: String::new(),
        id: String::new(),
        value: String::new(),
        record: String::new(),
        node_count: 0,
    };
    assert_eq!(
        fault_error(GraphFault::Directed, &words).message(),
        "graph \"a\\tb.json\" is marked directed; ben-process only supports undirected dual graphs"
    );
}

const SQUARE: &str = r#"{
    "directed": false, "multigraph": false,
    "nodes": [{ "pop": 1 }, { "pop": 2 }, { "pop": 3 }, { "pop": 4 }],
    "adjacency": [
        [{ "id": 1, "w": 1.5 }, { "id": 3 }],
        [{ "id": 0, "w": "1.5" }, { "id": 2, "w": null }],
        [{ "id": 1 }, { "id": 3, "w": 2 }],
        [{ "id": 0 }, { "id": 2, "w": 2.0 }]
    ]
}"#;

#[test]
fn incident_edges_are_listed_in_edge_order() {
    let graph = load(
        SQUARE,
        GraphLoadRequest {
            need_adjacency: true,
            ..request()
        },
    )
    .unwrap();
    assert_eq!(graph.edges, vec![(0, 1), (0, 3), (1, 2), (2, 3)]);
    assert_eq!(graph.neighbors(0), &[(1, 0), (3, 1)]);
    assert_eq!(graph.neighbors(1), &[(0, 0), (2, 2)]);
    assert_eq!(graph.neighbors(2), &[(1, 2), (3, 3)]);
    assert_eq!(graph.neighbors(3), &[(0, 1), (2, 3)]);
    let same = CsrAdjacency::new(4, &graph.edges);
    assert_eq!(same.offsets, vec![0, 2, 4, 6, 8]);
    assert_eq!(graph.edge_index((1, 2)), Some(2));
    assert_eq!(graph.edge_index((1, 3)), None);
}

#[test]
fn self_loop_and_repeated_edges_are_kept_once() {
    let graph = load(
        r#"{ "directed": false, "multigraph": true, "nodes": [{}, {}],
             "adjacency": [[{ "id": 1 }, { "id": 1 }, { "id": 0 }], []] }"#,
        request(),
    )
    .unwrap();
    assert_eq!(graph.edges, vec![(0, 0), (0, 1)]);
}

#[test]
fn edge_weights_of_a_sound_graph_pass() {
    let data = graph(SQUARE);
    assert!(audit_edge_weights(&data, &"w".to_string()).is_ok());
    let mentions: Vec<((u32, u32), f64)> = weight_mentions(&data, &weight("w", 1.0))
        .into_iter()
        .map(|mention| (mention.edge, mention.weight))
        .collect();
    assert_eq!(
        mentions,
        vec![((0, 1), 1.5), ((0, 1), 1.5), ((2, 3), 2.0), ((2, 3), 2.0)]
    );
}

#[test]
fn edge_weight_key_that_matches_nothing_is_an_error() {
    let fault = audit_edge_weights(&graph(SQUARE), &"weight".to_string()).unwrap_err();
    assert!(matches!(fault, EdgeWeightFault::NoMatch));
    assert_eq!(
        weight_fault_error(fault, "weight").message(),
        "edge key \"weight\" matches no edges in the graph"
    );
}

#[test]
fn edge_weight_that_is_no_finite_number_is_an_error() {
    let data = graph(
        r#"{ "directed": false, "multigraph": false, "nodes": [{}, {}],
             "adjacency": [[{ "id": 1, "w": 2 }], [{ "id": 0, "w": "oops" }]] }"#,
    );
    let fault = audit_edge_weights(&data, &"w".to_string()).unwrap_err();
    assert!(matches!(fault, EdgeWeightFault::NotFinite { entry: 1, edge: 0 }));
    assert_eq!(
        weight_fault_error(fault, "w").message(),
        "edge key \"w\" is not a finite number at adjacency entry 1, edge 0"
    );
}

#[test]
fn edge_weights_that_disagree_are_named() {
    assert_eq!(
        uneven_weight_error("w", (3, 7)).message(),
        "edge key \"w\" has different values in the two directions of edge (3, 7)"
    );
}

/// What a check says of the edge values of a graph under `w`.
fn checked(json: &str, key: &str, values: EdgeValues) -> Result<(), Error> {
    let data = graph(json);
    let loaded = load_graph(
        &data,
        GraphLoadRequest {
            edge_weight: weight(key, 1.0),
            ..request()
        },
        0.0,
    )
    .unwrap();
    check_edge_values(&data, &weight(key, 1.0), &loaded, values, |a: f64, b: f64| a == b)
}

#[test]
fn directions_of_an_edge_must_agree() {
    let uneven = r#"{ "directed": false, "multigraph": false, "nodes": [{}, {}, {}],
        "adjacency": [[{ "id": 1, "w": 2 }, { "id": 2, "w": 5 }],
                      [{ "id": 0, "w": 2 }, { "id": 2, "w": 3 }],
                      [{ "id": 1, "w": 4 }, { "id": 0, "w": 6 }]] }"#;
    assert_eq!(
        checked(uneven, "w", EdgeValues::Sound).unwrap_err().message(),
        "edge key \"w\" has different values in the two directions of edge (0, 2)"
    );
    assert!(checked(uneven, "w", EdgeValues::Present).is_ok());

    let one_sided = r#"{ "directed": false, "multigraph": false, "nodes": [{}, {}, {}],
        "adjacency": [[{ "id": 1, "w": 2 }], [{ "id": 0 }, { "id": 2, "w": null }], [{ "id": 1 }]] }"#;
    assert!(checked(one_sided, "w", EdgeValues::Sound).is_ok());
}

#[test]
fn edge_values_are_checked_before_they_are_compared() {
    assert!(checked(SQUARE, "w", EdgeValues::Sound).is_ok());
    for values in [EdgeValues::Present, EdgeValues::Sound] {
        assert_eq!(
            checked(SQUARE, "weight", values).unwrap_err().message(),
            "edge key \"weight\" matches no edges in the graph"
        );
    }
    let unfit = r#"{ "directed": false, "multigraph": false, "nodes": [{}, {}],
        "adjacency": [[{ "id": 1, "w": 2 }, { "id": 1, "w": 3 }], [{ "id": 0, "w": "oops" }]] }"#;
    assert_eq!(
        checked(unfit, "w", EdgeValues::Sound).unwrap_err().message(),
        "edge key \"w\" is not a finite number at adjacency entry 1, edge 0"
    );
    assert!(checked(unfit, "w", EdgeValues::Present).is_ok());
    let data = graph(SQUARE);
    let plain = load_graph(&data, request(), 0.0).unwrap();
    assert!(check_edge_values(&data, &None, &plain, EdgeValues::Sound, |_: f64, _: f64| false).is_ok());
}

#[test]
fn boundary_key_is_looked_for_on_every_node() {
    let data = graph(
        r#"{ "directed": false, "multigraph": false,
             "nodes": [{ "b": "x" }, { "b": 0.5 }], "adjacency": [[], []] }"#,
    );
    assert!(matches_any_node(&data.nodes, &"b".to_string()));
    assert!(!matches_any_node(&data.nodes, &"c".to_string()));
}
