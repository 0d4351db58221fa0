use kannolo::options::{
    candidates_to_rerank, check_storage, create_search_config, parse_metric, plan_index,
    plan_search, ComponentTypeArg, DatasetType, DistanceKind, EarlyTerminationMethod,
    EarlyTerminationStrategy, EncoderType, IndexKind, IndexPlan, OptionError, SearchPlan, Storage,
    ValueTypeArg,
};

fn storage(
    dataset_type: DatasetType,
    encoder: EncoderType,
    value_type: ValueTypeArg,
    component_type: ComponentTypeArg,
) -> Storage {
    Storage { dataset_type, encoder, value_type, component_type }
}

fn sparse(encoder: EncoderType) -> Storage {
    storage(DatasetType::Sparse, encoder, ValueTypeArg::F32, ComponentTypeArg::U16)
}

fn dense(encoder: EncoderType) -> Storage {
    storage(DatasetType::Dense, encoder, ValueTypeArg::F32, ComponentTypeArg::U16)
}

const PACKED: [EncoderType; 4] = [
    EncoderType::Dotvbyte,
    EncoderType::Dotpacking8Scalaru8,
    EncoderType::BlockedSparse,
    EncoderType::DotpackingSparseScalaru8,
];

#[test]
fn metrics_have_two_names() {
    assert_eq!(parse_metric("euclidean"), Ok(DistanceKind::Euclidean));
    assert_eq!(parse_metric("l2"), Ok(DistanceKind::Euclidean));
    assert_eq!(parse_metric("dotproduct"), Ok(DistanceKind::DotProduct));
    assert_eq!(parse_metric("ip"), Ok(DistanceKind::DotProduct));
    let error = parse_metric("L2").unwrap_err();
    assert_eq!(
        error.message(),
        "Error: Invalid distance type. Choose between 'euclidean' and 'dotproduct'."
    );
}

#[test]
fn names_and_defaults() {
    assert_eq!(ValueTypeArg::default().name(), "f32");
    assert_eq!(ValueTypeArg::F16.name(), "f16");
    assert_eq!(ValueTypeArg::Fixedu8.name(), "fixedu8");
    assert_eq!(ValueTypeArg::Fixedu16.name(), "fixedu16");
    assert_eq!(EncoderType::default().name(), "plain");
    assert_eq!(EncoderType::Pq.name(), "pq");
    let names: Vec<&str> = PACKED.iter().map(|e| e.name()).collect();
    assert_eq!(
        names,
        vec!["dotvbyte", "dotpacking8-scalaru8", "blocked-sparse", "dotpacking8-sparse-scalar"]
    );
    assert_eq!(ComponentTypeArg::default(), ComponentTypeArg::U16);
}

#[test]
fn packed_encoders_need_sparse_vectors_of_short_components() {
    let names = ["DotVByte", "DotPacking8", "BlockedSparse", "DotPackingSparse"];
    for (encoder, name) in PACKED.into_iter().zip(names) {
        assert_eq!(
            check_storage(&dense(encoder)).unwrap_err().message(),
            format!("Error: {name} encoder is only available for sparse vectors.")
        );
        let long = Storage { component_type: ComponentTypeArg::U32, ..sparse(encoder) };
        assert_eq!(
            check_storage(&long).unwrap_err().message(),
            format!("Error: {name} encoder supports only component-type u16.")
        );
        assert_eq!(
            plan_index(&sparse(encoder), "l2", 16).unwrap_err().message(),
            format!("Error: {name} encoder only supports dotproduct distance.")
        );
        assert_eq!(
            plan_index(&sparse(encoder), "ip", 16),
            Ok(IndexPlan {
                kind: IndexKind::SparsePacked { encoder },
                metric: DistanceKind::DotProduct
            })
        );
    }
}

#[test]
fn quantized_parts_need_dense_vectors() {
    assert_eq!(
        check_storage(&sparse(EncoderType::Pq)).unwrap_err().message(),
        "Error: PQ encoder is only available for dense vectors."
    );
    for subspaces in [4usize, 8, 16, 32, 48, 64, 96, 128, 192, 256, 384] {
        assert_eq!(
            plan_index(&dense(EncoderType::Pq), "euclidean", subspaces),
            Ok(IndexPlan {
                kind: IndexKind::DensePq { subspaces },
                metric: DistanceKind::Euclidean
            })
        );
    }
    assert_eq!(
        plan_index(&dense(EncoderType::Pq), "l2", 12).unwrap_err().message(),
        "Error: Invalid pq-subspaces value. Choose between 4, 8, 16, 32, 48, 64, 96, 128, 192, 256, 384."
    );
}

#[test]
fn dense_vectors_are_plain_floats() {
    let fixed = Storage { value_type: ValueTypeArg::Fixedu8, ..dense(EncoderType::Plain) };
    assert_eq!(
        check_storage(&fixed).unwrap_err().message(),
        "Error: fixedu8/fixedu16 value types are only available for sparse vectors."
    );
    let long = Storage { component_type: ComponentTypeArg::U32, ..dense(EncoderType::Pq) };
    assert_eq!(
        check_storage(&long).unwrap_err().message(),
        "Error: component-type is only applicable to sparse datasets."
    );
    let both = Storage { component_type: ComponentTypeArg::U32, ..fixed };
    assert_eq!(check_storage(&both), Err(OptionError::FixedNeedsSparse));
    assert_eq!(
        plan_index(&dense(EncoderType::Plain), "l2", 0),
        Ok(IndexPlan {
            kind: IndexKind::DensePlain { value_type: ValueTypeArg::F32 },
            metric: DistanceKind::Euclidean
        })
    );
}

#[test]
fn sparse_vectors_can_be_plain_in_every_way() {
    let value_type = ValueTypeArg::Fixedu16;
    let component_type = ComponentTypeArg::U32;
    let s = storage(DatasetType::Sparse, EncoderType::Plain, value_type, component_type);
    assert_eq!(
        plan_index(&s, "ip", 0),
        Ok(IndexPlan {
            kind: IndexKind::SparsePlain { value_type, component_type },
            metric: DistanceKind::DotProduct
        })
    );
}

#[test]
fn searches_are_checked_in_turn() {
    let s = sparse(EncoderType::BlockedSparse);
    assert_eq!(plan_search(&s, "cosine", 16, 0, true), Err(OptionError::InvalidDistance));
    assert_eq!(
        plan_search(&s, "l2", 16, 0, true).unwrap_err().message(),
        "Error: --zeta-k must be greater than 0."
    );
    assert_eq!(plan_search(&s, "l2", 16, 3, true), Ok(SearchPlan::ConvertToBlockedSparse));
    assert_eq!(
        plan_search(&sparse(EncoderType::DotpackingSparseScalaru8), "ip", 16, 3, true),
        Ok(SearchPlan::ConvertToDotpackingSparse)
    );
    assert_eq!(
        plan_search(&sparse(EncoderType::Plain), "ip", 16, 3, true).unwrap_err().message(),
        "Error: --convert-in-memory only supports sparse blocked-sparse / dotpacking8-sparse-scalar encoders."
    );
    assert_eq!(
        plan_search(&s, "l2", 16, 3, false),
        Err(OptionError::BlockedSparseNeedsDotProduct)
    );
    let kind = IndexKind::SparsePacked { encoder: EncoderType::BlockedSparse };
    assert_eq!(
        plan_search(&s, "ip", 16, 3, false),
        Ok(SearchPlan::Load { index: IndexPlan { kind, metric: DistanceKind::DotProduct } })
    );
}

#[test]
fn early_termination_takes_its_parameter() {
    let never = create_search_config(40, EarlyTerminationMethod::Never, 0.5f32);
    assert_eq!(never.ef_search, 40);
    assert!(matches!(never.early_termination, EarlyTerminationStrategy::Never));
    let adaptive = create_search_config(7, EarlyTerminationMethod::DistanceAdaptive, 0.5f32);
    assert_eq!(adaptive.ef_search, 7);
    assert!(matches!(
        adaptive.early_termination,
        EarlyTerminationStrategy::DistanceAdaptive { lambda } if lambda == 0.5
    ));
}

#[test]
fn ten_candidates_are_reranked_for_each_result() {
    assert_eq!(candidates_to_rerank(None, 7), 70);
    assert_eq!(candidates_to_rerank(Some(12), 7), 12);
}
