use kannolo::options::ComponentTypeArg;
use kannolo::seismic::{
    build_config, index_path, packed_quant_settings, plan_build, queries_to_run, scan_encoding,
    BuildError, BuildOptions, BuildPlan, ClusteringAlgorithm, ClusteringAlgorithmClap, Conversion,
    PruningStrategy, PruningStrategyClap, ScanEncoding, SummarizationStrategy,
    SummarizationStrategyClap,
};

fn options() -> BuildOptions<f32> {
    BuildOptions {
        n_postings: 6000,
        centroid_fraction: 0.1,
        summarization_strategy: SummarizationStrategyClap::default(),
        summary_energy: 0.5,
        n_components: 3,
        clustering_algorithm: ClusteringAlgorithmClap::default(),
        pruning_strategy: PruningStrategyClap::default(),
        kmeans_pruning_factor: 0.005,
        kmeans_doc_cut: 15,
        min_cluster_size: 2,
        alpha: 0.15,
        max_fraction: 1.5,
        knn: 4,
        knn_path: Some(String::from("near.bin")),
    }
}

#[test]
fn default_options_give_the_default_strategies() {
    let config = build_config(&options());
    assert!(matches!(
        config.pruning,
        PruningStrategy::GlobalThreshold { n_postings: 6000, max_fraction } if max_fraction == 1.5
    ));
    assert!(matches!(
        config.blocking.clustering_algorithm,
        ClusteringAlgorithm::RandomKmeansInvertedIndexApprox { doc_cut: 15 }
    ));
    assert_eq!(config.blocking.centroid_fraction, 0.1);
    assert_eq!(config.blocking.min_cluster_size, 2);
    assert!(matches!(
        config.summarization,
        SummarizationStrategy::EnergyPreserving { summary_energy } if summary_energy == 0.5
    ));
    assert_eq!(config.knn.nknn, 4);
    assert_eq!(config.knn.knn_path, Some(String::from("near.bin")));
}

#[test]
fn every_strategy_takes_its_parameters() {
    let mut o = options();
    o.knn_path = None;
    o.pruning_strategy = PruningStrategyClap::FixedSize;
    o.clustering_algorithm = ClusteringAlgorithmClap::RandomKmeansInvertedIndex;
    o.summarization_strategy = SummarizationStrategyClap::FixedSize;
    let config = build_config(&o);
    assert!(matches!(config.pruning, PruningStrategy::FixedSize { n_postings: 6000 }));
    assert!(matches!(
        config.blocking.clustering_algorithm,
        ClusteringAlgorithm::RandomKmeansInvertedIndex { pruning_factor, doc_cut: 15 }
            if pruning_factor == 0.005
    ));
    assert!(matches!(config.summarization, SummarizationStrategy::FixedSize { n_components: 3 }));
    assert_eq!(config.knn.knn_path, None);

    o.pruning_strategy = PruningStrategyClap::CoiThreshold;
    o.clustering_algorithm = ClusteringAlgorithmClap::RandomKmeans;
    o.summarization_strategy = SummarizationStrategyClap::Medoid;
    let config = build_config(&o);
    assert!(matches!(
        config.pruning,
        PruningStrategy::CoiThreshold { alpha, n_postings: 6000 } if alpha == 0.15
    ));
    assert!(matches!(config.blocking.clustering_algorithm, ClusteringAlgorithm::RandomKmeans));
    assert!(matches!(config.summarization, SummarizationStrategy::Medoid));
}

#[test]
fn plain_values_come_with_all_components() {
    for name in ["f32", "f16", "bf16", "fixedu16", "fixedu8", "dotvbyte", "dotvbyte-scalar"] {
        for (text, component_type) in [("u16", ComponentTypeArg::U16), ("u32", ComponentTypeArg::U32)] {
            let plan = plan_build(name, text).unwrap();
            assert_eq!(plan.component_type, component_type);
            assert_eq!(plan.conversion.name(), name);
        }
    }
}

#[test]
fn packed_values_come_with_their_components() {
    let short = [
        "blocked-sparse",
        "dotpacking8-fixedu8",
        "dotpacking8-scalar",
        "dotpacking8-sparse-scalar",
        "dotpacking8-scalar4bit",
        "dotpacking8-centroid4bit",
        "dotpacking8-f16",
        "dotpackingsparse-f16",
        "packed-centroid",
        "packed-variable-uniform",
    ];
    for name in short {
        assert_eq!(plan_build(name, "u16").unwrap().conversion.name(), name);
        assert_eq!(
            plan_build(name, "u32").unwrap_err().message(),
            format!("Error: {name} requires component-type 'u16'.")
        );
    }
    let long =
        ["dotvbyte-optimistic", "dotvbyte-optimistic-scalar", "dotpacking8-optimistic-scalar"];
    for name in long {
        assert_eq!(plan_build(name, "u32").unwrap().conversion.name(), name);
        assert_eq!(
            plan_build(name, "u16").unwrap_err().message(),
            format!("Error: {name} requires component-type 'u32'.")
        );
    }
    assert_eq!(
        plan_build("dotvbyte", "u64").unwrap_err().message(),
        "Error: dotvbyte requires component-type 'u16' or 'u32'."
    );
}

#[test]
fn unknown_names_are_refused() {
    assert_eq!(plan_build("f32", "u8"), Err(BuildError::UnknownComponent));
    assert_eq!(
        BuildError::UnknownComponent.message(),
        "Error: component-type must be either 'u16' or 'u32'"
    );
    assert_eq!(plan_build("f64", "u8"), Err(BuildError::UnknownComponent));
    assert_eq!(plan_build("f64", "u16"), Err(BuildError::UnknownValue));
    assert_eq!(plan_build("dotpacking8", "u16"), Err(BuildError::UnknownValue));
    assert_eq!(
        BuildError::UnknownValue.message(),
        "Error: value-type must be 'f16', 'bf16', 'f32', 'fixedu16', or 'fixedu8'"
    );
    assert_eq!(
        plan_build("f16", "u32"),
        Ok(BuildPlan { component_type: ComponentTypeArg::U32, conversion: Conversion::F16 })
    );
}

#[test]
fn packed_quantizers_are_told_their_parameters() {
    assert_eq!(
        packed_quant_settings(Conversion::PackedCentroid),
        vec![("QUANT_LOWER_PCT", "0"), ("QUANT_UPPER_PCT", "1"), ("QUANT_KMEANS_ITERS", "5")]
    );
    assert_eq!(
        packed_quant_settings(Conversion::PackedVariableUniform),
        vec![("QUANT_LOWER_PCT", "0"), ("QUANT_UPPER_PCT", "1"), ("QUANT_NBITS", "4")]
    );
    assert!(packed_quant_settings(Conversion::Dotvbyte).is_empty());
    // Whole fractions are written without a point.
    assert_eq!(0.0f32.to_string(), "0");
    assert_eq!(1.0f32.to_string(), "1");
}

#[test]
fn indexes_are_saved_under_their_name() {
    assert_eq!(index_path("out/msmarco"), "out/msmarco.index.seismic");
}

#[test]
fn two_encodings_can_be_scanned() {
    assert_eq!(scan_encoding("dotvbyte-scalar"), Ok(ScanEncoding::DotvbyteScalar));
    assert_eq!(scan_encoding("dotvbyte"), Ok(ScanEncoding::Dotvbyte));
    assert_eq!(
        scan_encoding("f16"),
        Err(String::from("Error: value-type must be 'dotvbyte-scalar' or 'dotvbyte'. Got: 'f16'"))
    );
}

#[test]
fn no_more_queries_are_run_than_there_are() {
    assert_eq!(queries_to_run(6980, 100), 100);
    assert_eq!(queries_to_run(10, 100), 10);
}
