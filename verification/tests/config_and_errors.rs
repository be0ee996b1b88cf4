use polyvoice::asr::AsrError;
use polyvoice::cli::{
    max_speakers_u8, parse_domain_profile, parse_execution_provider, resolve_as_norm_config,
    CliError, CohortFile, ExecutionProvider,
};
use polyvoice::clusterer::{
    ami, callhome, domain_profile, domain_profiles, uniform_dim, voxconverse, AhcClusterer,
    AsNormError, ClustererError, CohortSource, KmeansClusterer, NmeScClusterer, PldaError,
    DEFAULT_ASNORM_COHORT_MODEL_ID, DEFAULT_AS_NORM_TOP_N,
};
use polyvoice::earshot_vad::{frames_in_chunk, register_with, ChunkError, ADAPTER_TYPE, FRAME_SIZE};
use polyvoice::ecapa::FbankOnnxExtractor;
use polyvoice::embedder::{detail_looks_exhausted, DummyExtractor, EmbedderError};
use polyvoice::mcp::{
    asr_unavailable, capabilities, err, resolve_max_speakers, ERR_INTERNAL, ERR_INVALID_ARG, ERR_MODEL_LOAD,
    JSONRPC_INTERNAL_ERROR, JSONRPC_INVALID_PARAMS,
};
use polyvoice::registry::{AdapterError, AdapterRegistry, AdapterStage};

#[test]
fn asr_error_displays() {
    assert!(AsrError::UnsupportedSampleRate { actual: 8000 }
        .message()
        .contains("8000"));
}

#[test]
fn asr_error_messages_are_exact() {
    assert_eq!(
        AsrError::UnsupportedSampleRate { actual: 8000 }.message(),
        "unsupported sample rate: 8000 Hz"
    );
    assert_eq!(
        AsrError::InferenceFailed { detail: "boom".to_string() }.message(),
        "ASR inference failed: boom"
    );
    assert_eq!(
        AsrError::ModelIo { path: "/m.onnx".to_string(), detail: "gone".to_string() }.message(),
        "model file io error on /m.onnx: gone"
    );
    assert_eq!(AsrError::Backend("x".to_string()).message(), "ASR backend error: x");
}

#[test]
fn max_speakers_accepts_default_and_valid_range() {
    let default_max = 20u8;
    assert_eq!(resolve_max_speakers(None, default_max).unwrap(), default_max);
    assert_eq!(resolve_max_speakers(Some(1), default_max).unwrap(), 1);
    assert_eq!(resolve_max_speakers(Some(255), default_max).unwrap(), 255);
}

#[test]
fn max_speakers_rejects_out_of_range_with_invalid_arg() {
    for n in [0_usize, 256, 1000] {
        let e = resolve_max_speakers(Some(n), 20).expect_err("out of range must error");
        assert_eq!(e.jsonrpc_code, -32602, "n={n} must map to invalid params");
        assert_eq!(e.code, ERR_INVALID_ARG);
        assert!(
            e.message.contains("max_speakers must be in 1..=255"),
            "message must name the valid range: {}",
            e.message
        );
    }
}

#[test]
fn mcp_error_codes_map_to_jsonrpc_classes() {
    let e = err(ERR_INVALID_ARG, "no such file: x.wav".to_string());
    assert_eq!(e.jsonrpc_code, JSONRPC_INVALID_PARAMS);
    assert_eq!(e.code, ERR_INVALID_ARG);
    assert_eq!(e.message, "no such file: x.wav");
    let e = err(ERR_MODEL_LOAD, "model missing".to_string());
    assert_eq!(e.jsonrpc_code, JSONRPC_INTERNAL_ERROR);
    let e = err(ERR_INTERNAL, "oops".to_string());
    assert_eq!(e.jsonrpc_code, -32603);
}

#[test]
fn as_norm_config_disabled_is_none() {
    assert!(resolve_as_norm_config(false, None, None).unwrap().is_none());
    // Disabled wins even with an invalid cohort path.
    assert!(resolve_as_norm_config(
        false,
        Some(CohortFile { path: "/no/such.npy".to_string(), is_file: false }),
        None
    )
    .unwrap()
    .is_none());
}

#[test]
fn as_norm_config_defaults_to_registry_cohort_and_default_top_n() {
    let cfg = resolve_as_norm_config(true, None, None).unwrap().unwrap();
    assert_eq!(cfg.top_n, DEFAULT_AS_NORM_TOP_N);
    match cfg.cohort {
        CohortSource::ModelId(id) => assert_eq!(id, DEFAULT_ASNORM_COHORT_MODEL_ID),
        other => panic!("expected ModelId, got {other:?}"),
    }
}

#[test]
fn as_norm_config_requires_existing_cohort_file() {
    let err = resolve_as_norm_config(
        true,
        Some(CohortFile { path: "/no/such/cohort.npy".to_string(), is_file: false }),
        None,
    )
    .unwrap_err();
    assert_eq!(err, CliError::CohortNotFound { path: "/no/such/cohort.npy".to_string() });
    assert!(err.message().contains("/no/such/cohort.npy"));
}

#[test]
fn as_norm_config_honors_explicit_path_and_top_n() {
    let cfg = resolve_as_norm_config(
        true,
        Some(CohortFile { path: "/tmp/cohort.npy".to_string(), is_file: true }),
        Some(42),
    )
    .unwrap()
    .unwrap();
    assert_eq!(cfg.top_n, 42);
    assert_eq!(cfg.cohort, CohortSource::Path("/tmp/cohort.npy".to_string()));
}

#[test]
fn execution_provider_parses_known_names() {
    for name in ["auto", "cpu", "coreml", "nnapi", "cuda", "xnnpack"] {
        assert!(parse_execution_provider(name).is_ok(), "{name}");
    }
    assert!(parse_execution_provider("tpu").is_err());
}

#[test]
fn execution_provider_maps_each_name() {
    assert_eq!(parse_execution_provider("auto").unwrap(), ExecutionProvider::Auto);
    assert_eq!(parse_execution_provider("cpu").unwrap(), ExecutionProvider::Cpu);
    assert_eq!(parse_execution_provider("coreml").unwrap(), ExecutionProvider::CoreMl);
    assert_eq!(parse_execution_provider("nnapi").unwrap(), ExecutionProvider::Nnapi);
    assert_eq!(parse_execution_provider("cuda").unwrap(), ExecutionProvider::Cuda);
    assert_eq!(parse_execution_provider("xnnpack").unwrap(), ExecutionProvider::XnnPack);
    let e = parse_execution_provider("CPU").unwrap_err();
    assert_eq!(
        e.message(),
        "unknown --execution-provider 'CPU' (expected auto|cpu|coreml|nnapi|cuda|xnnpack)"
    );
}

#[test]
fn max_speakers_u8_accepts_valid_range() {
    assert_eq!(max_speakers_u8(1).unwrap(), 1);
    assert_eq!(max_speakers_u8(255).unwrap(), 255);
}

#[test]
fn max_speakers_u8_rejects_out_of_range() {
    assert!(max_speakers_u8(0).is_err());
    assert!(max_speakers_u8(256).is_err());
    assert_eq!(
        max_speakers_u8(256).unwrap_err().message(),
        "max_speakers must be in 1..=255, got 256"
    );
}

#[test]
fn domain_profile_parses_known_names() {
    for name in ["voxconverse", "ami", "callhome"] {
        let p = parse_domain_profile(name).unwrap();
        assert_eq!(p.name, name);
    }
    let err = parse_domain_profile("switchboard").unwrap_err();
    assert!(err.message().contains("voxconverse|ami|callhome"));
    assert_eq!(
        err.message(),
        "unknown --domain-profile 'switchboard' (expected voxconverse|ami|callhome)"
    );
}

#[test]
fn clusterer_error_too_few_embeddings_displays() {
    let err = ClustererError::TooFewEmbeddings { actual: 0, min: 1 };
    let msg = err.message();
    assert!(msg.contains('0'));
}

#[test]
fn trait_tests_error_too_few_embeddings_displays() {
    let err = ClustererError::TooFewEmbeddings { actual: 0, min: 1 };
    let msg = err.message();
    assert!(msg.contains('0'));
    assert_eq!(msg, "too few embeddings: got 0, need at least 1");
}

#[test]
fn error_dim_mismatch_displays_details() {
    let err = ClustererError::DimMismatch { expected: 3, actual: 4, index: 2 };
    let msg = err.message();
    assert!(msg.contains('3'));
    assert!(msg.contains('4'));
    assert!(msg.contains('2'));
    assert_eq!(msg, "embedding dimension mismatch: expected 3, got 4 at index 2");
}

#[test]
fn error_algorithm_failed_displays_detail() {
    let err = ClustererError::AlgorithmFailed { detail: "eigengap blew up".to_string() };
    assert!(err.message().contains("eigengap blew up"));
}

#[test]
fn uniform_dim_reports_first_mismatch() {
    assert_eq!(uniform_dim(&vec![3, 3, 4]), Err(ClustererError::DimMismatch { expected: 3, actual: 4, index: 2 }));
    assert_eq!(uniform_dim(&vec![3, 5, 4]), Err(ClustererError::DimMismatch { expected: 3, actual: 5, index: 1 }));
    assert_eq!(uniform_dim(&vec![7]), Ok(()));
    assert_eq!(uniform_dim(&vec![2, 2, 2, 2]), Ok(()));
}

#[test]
fn profiles_carry_distinct_thresholds() {
    let v = voxconverse().ahc_threshold_milli;
    let a = ami().ahc_threshold_milli;
    let c = callhome().ahc_threshold_milli;
    assert_ne!(v, a);
    assert_ne!(v, c);
    assert_ne!(a, c);
}

#[test]
fn lookup_resolves_every_shipped_profile() {
    for p in domain_profiles() {
        assert_eq!(domain_profile(p.name), Some(p), "{}", p.name);
    }
    assert_eq!(voxconverse().ahc_threshold_milli, 500);
    assert_eq!(ami().ahc_threshold_milli, 550);
    assert_eq!(callhome().ahc_threshold_milli, 450);
}

#[test]
fn lookup_is_deterministic_and_rejects_unknown_names() {
    assert_eq!(domain_profile("ami"), domain_profile("ami"));
    assert_eq!(domain_profile("voxconverse"), Some(voxconverse()));
    for bogus in ["", "AMI", "vox", "switchboard", "voxconverse-test"] {
        assert_eq!(domain_profile(bogus), None, "{bogus}");
    }
}

#[test]
fn kmeans_new_clamps_max_clusters_to_two() {
    assert_eq!(KmeansClusterer::new(0).max_clusters(), 2);
    assert_eq!(KmeansClusterer::new(8).max_clusters(), 8);
    assert_eq!(KmeansClusterer::default().max_clusters(), 64);
}

#[test]
fn kmeans_builders_set_their_fields() {
    let c = KmeansClusterer::new(4).with_max_iter(10).with_trials(0).fast_mode();
    assert_eq!(c.max_clusters(), 4);
    assert_eq!(c.max_iter(), 10);
    assert_eq!(c.trials(), 1);
    assert!(c.is_fast());
    let d = KmeansClusterer::new(5);
    assert_eq!(d.max_iter(), 50);
    assert_eq!(d.trials(), 3);
    assert!(!d.is_fast());
    assert_eq!(d.with_trials(7).trials(), 7);
}

#[test]
fn clusterer_max_clusters_clamp_to_one() {
    assert_eq!(NmeScClusterer::new(0).max_clusters(), 1);
    assert_eq!(NmeScClusterer::new(9).max_clusters(), 9);
    assert_eq!(NmeScClusterer::default().max_clusters(), 64);
    assert_eq!(AhcClusterer::new(0).max_clusters(), 1);
    assert_eq!(AhcClusterer::default().max_clusters(), 64);
}

#[test]
fn cohort_and_plda_errors_display() {
    let e = AsNormError::Io { path: "c.npy".to_string(), detail: "missing".to_string() };
    assert_eq!(e.message(), "as-norm cohort io error on c.npy: missing");
    let p = PldaError::Io { path: "p".to_string(), detail: "d".to_string() };
    assert_eq!(p.message(), "plda param io error on p: d");
    let s = PldaError::Shape {
        name: "plda_mu".to_string(),
        expected: "(128,)".to_string(),
        actual: "(64,)".to_string(),
    };
    assert_eq!(s.message(), "plda param plda_mu has wrong shape: expected (128,), got (64,)");
}

#[test]
fn register_with_empty_registry() {
    let mut reg = AdapterRegistry::new();
    register_with(&mut reg).unwrap();
    assert!(reg.contains(AdapterStage::Vad, ADAPTER_TYPE));
    let err = register_with(&mut reg).expect_err("duplicate");
    assert!(matches!(err, AdapterError::AlreadyRegistered { .. }));
}

#[test]
fn registry_keeps_stages_apart() {
    let mut reg = AdapterRegistry::new();
    assert!(!reg.contains(AdapterStage::Vad, "earshot"));
    reg.register(AdapterStage::Segmenter, "earshot").unwrap();
    assert!(!reg.contains(AdapterStage::Vad, "earshot"));
    assert!(reg.contains(AdapterStage::Segmenter, "earshot"));
    register_with(&mut reg).unwrap();
    assert!(reg.contains(AdapterStage::Vad, "earshot"));
    assert_eq!(
        reg.register(AdapterStage::Segmenter, "earshot"),
        Err(AdapterError::AlreadyRegistered { stage: AdapterStage::Segmenter, id: "earshot".to_string() })
    );
}

#[test]
fn chunks_must_be_whole_frames() {
    assert_eq!(frames_in_chunk(0), Ok(0));
    assert_eq!(frames_in_chunk(FRAME_SIZE * 3), Ok(3));
    assert_eq!(frames_in_chunk(300), Err(ChunkError::InvalidChunkSize { expected: 256, got: 300 }));
}

#[test]
fn fbank_onnx_extractor_new_without_onnx_fails() {
    let result = FbankOnnxExtractor::new("dummy.onnx", 256, 1);
    assert!(result.is_err());
    let err = match result {
        Err(e) => e.message,
        Ok(_) => panic!("expected error"),
    };
    assert!(
        err.contains("onnx") || err.contains("not enabled"),
        "expected onnx-related error, got: {err}"
    );
}

#[test]
fn fbank_onnx_extractor_stub_exists() {
    let _ = FbankOnnxExtractor;
}

#[test]
fn dim_is_reported() {
    let e = DummyExtractor::new(192);
    assert_eq!(e.dim(), 192);
}

#[test]
fn dummy_extractor_values_follow_the_generator() {
    let mut e = DummyExtractor::new(3);
    // seed 1 -> 1103515245 + 12345 = 1103527590 -> 590
    let v = e.next_raw_values();
    assert_eq!(v.len(), 3);
    assert_eq!(v[0], 590);
    let s1: u64 = 1103527590;
    let s2 = s1.wrapping_mul(1103515245).wrapping_add(12345);
    assert_eq!(v[1], s2 % 1000);
    // The next call starts from seed 2.
    let w = e.next_raw_values();
    assert_eq!(w[0], (2u64 * 1103515245 + 12345) % 1000);
    assert_ne!(v, w);
}

#[test]
fn embedder_errors_classify_exhaustion() {
    assert!(EmbedderError::ResourceExhausted { detail: "x".to_string() }.is_resource_exhausted());
    assert!(EmbedderError::InferenceFailed { detail: "session pool exhausted now".to_string() }
        .is_resource_exhausted());
    assert!(EmbedderError::Legacy("pool exhausted".to_string()).is_resource_exhausted());
    assert!(!EmbedderError::InferenceFailed { detail: "pool ok".to_string() }.is_resource_exhausted());
    assert!(!EmbedderError::DimMismatch { expected: 1, actual: 2 }.is_resource_exhausted());
    assert!(detail_looks_exhausted("... pool exhausted"));
    assert!(!detail_looks_exhausted("pool exhaust"));
}

#[test]
fn embedder_error_messages() {
    assert_eq!(
        EmbedderError::AudioTooShort { actual_ms: 250, min_ms: 1500 }.message(),
        "audio too short for this embedder: 0.250s < 1.500s"
    );
    assert_eq!(
        EmbedderError::DimMismatch { expected: 192, actual: 256 }.message(),
        "expected embedding dim 192, got 256"
    );
    assert_eq!(
        EmbedderError::ResourceExhausted { detail: "busy".to_string() }.message(),
        "resource exhausted: busy"
    );
    assert_eq!(
        EmbedderError::ModelIo { path: "m".to_string(), detail: "d".to_string() }.message(),
        "model file io error on m: d"
    );
    assert_eq!(EmbedderError::Legacy("z".to_string()).message(), "legacy adapter error: z");
    assert_eq!(
        EmbedderError::InferenceFailed { detail: "bad".to_string() }.message(),
        "ONNX inference failed: bad"
    );
}

#[test]
fn inference_failed_display_includes_detail() {
    let err = EmbedderError::InferenceFailed { detail: "session crashed".into() };
    let msg = err.message();
    assert!(msg.contains("ONNX inference failed"));
    assert!(msg.contains("session crashed"));
}

#[test]
fn resource_exhausted_display_includes_detail() {
    let err = EmbedderError::ResourceExhausted { detail: "all sessions busy".into() };
    let msg = err.message();
    assert!(msg.contains("resource exhausted"));
    assert!(msg.contains("all sessions busy"));
}

#[test]
fn dim_mismatch_display_includes_both_dims() {
    let err = EmbedderError::DimMismatch { expected: 192, actual: 256 };
    let msg = err.message();
    assert!(msg.contains("192"));
    assert!(msg.contains("256"));
}

#[test]
fn model_io_display_includes_path_and_detail() {
    let err = EmbedderError::ModelIo { path: "/tmp/missing.onnx".into(), detail: "no such file".into() };
    let msg = err.message();
    assert!(msg.contains("/tmp/missing.onnx"));
    assert!(msg.contains("no such file"));
}

#[test]
fn legacy_display_includes_message() {
    let err = EmbedderError::Legacy("old adapter broke".into());
    assert!(err.message().contains("old adapter broke"));
}

#[test]
fn legacy_variant_with_pool_exhausted_string_classifies() {
    let err = EmbedderError::Legacy("onnx session pool exhausted".into());
    assert!(err.is_resource_exhausted());
}

#[test]
fn legacy_variant_without_marker_does_not_classify() {
    let err = EmbedderError::Legacy("some other failure".into());
    assert!(!err.is_resource_exhausted());
}

#[test]
fn inference_failed_without_marker_does_not_classify() {
    let err = EmbedderError::InferenceFailed { detail: "shape mismatch".into() };
    assert!(!err.is_resource_exhausted());
}

#[test]
fn unrelated_variants_do_not_classify_as_exhausted() {
    // Durations in milliseconds: 0.1 s and 0.5 s.
    let too_short = EmbedderError::AudioTooShort { actual_ms: 100, min_ms: 500 };
    assert!(!too_short.is_resource_exhausted());
    let io = EmbedderError::ModelIo { path: "m.onnx".into(), detail: "pool exhausted on disk".into() };
    assert!(!io.is_resource_exhausted(), "ModelIo must not substring-match the legacy marker");
}

#[test]
fn embedder_embedder_error_audio_too_short_displays() {
    // 0.05 s and 0.25 s.
    let err = EmbedderError::AudioTooShort { actual_ms: 50, min_ms: 250 };
    let msg = err.message();
    assert!(msg.contains("0.05"));
    assert!(msg.contains("0.25"));
}

#[test]
fn trait_tests_embedder_error_audio_too_short_displays() {
    let err = EmbedderError::AudioTooShort { actual_ms: 50, min_ms: 250 };
    let msg = err.message();
    assert!(msg.contains("0.05"));
    assert!(msg.contains("0.25"));
}

#[test]
fn invalid_arg_maps_to_jsonrpc_invalid_params() {
    let e = err(ERR_INVALID_ARG, "no such file: x.wav".to_string());
    assert_eq!(e.jsonrpc_code, -32602);
    assert_eq!(e.code, ERR_INVALID_ARG);
    assert_eq!(e.message, "no such file: x.wav");
}

#[test]
fn model_load_maps_to_jsonrpc_internal_error() {
    let e = err(ERR_MODEL_LOAD, "model missing".to_string());
    assert_eq!(e.jsonrpc_code, -32603);
    assert_eq!(e.code, ERR_MODEL_LOAD);
    assert_eq!(e.message, "model missing");
}

#[test]
fn asr_unavailable_error_carries_ffi_code() {
    let e = asr_unavailable();
    assert_eq!(e.code, ERR_INTERNAL);
    assert_eq!(e.jsonrpc_code, JSONRPC_INTERNAL_ERROR);
    assert!(e.message.contains("polyvoice-asr"));
}

#[test]
fn capabilities_lists_four_tools_and_no_asr() {
    let cap = capabilities("0.1.0".to_string());
    assert_eq!(cap.tools.len(), 4);
    assert!(!cap.asr_available);
    assert!(cap.tools.iter().any(|t| t == "polyvoice.diarize"));
    assert_eq!(cap.output_formats.len(), 5);
    assert_eq!(cap.profiles, vec!["balanced".to_string(), "mobile".to_string()]);
    assert_eq!(cap.version, "0.1.0");
}
