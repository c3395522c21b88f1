use vverdad::config::{config_with_input_and_output, InputType, OutputType};
use vverdad::pipeline::{
    finish_render_job, next_step, plan_output, render_jobs, start_run, unmet_report, OutputPlan, PhaseOutcome, RunPhase,
};
use vverdad::events::{mark_error, should_continue, ProcessingStatus};
use vverdad::graph::{build_dependency_graph, TemplateDeps};
use vverdad::keys::{provides, KeyTree};
use vverdad::schedule::{
    initialize_unmet_needs, is_work_remaining, mark_rendered, ready_templates, update_unmet_needs, RenderState,
    TemplateState,
};

fn template(entity: u64, name: &str, reqs: &[&str]) -> TemplateState {
    TemplateState {
        entity,
        template_name: name.to_string(),
        requirements: reqs.iter().map(|s| s.to_string()).collect(),
        needs: None,
        rendered: false,
    }
}

#[test]
fn keys_of_nested_maps_skip_underscored_entries() {
    let tree = KeyTree::Entries(vec![
        ("thrust".to_string(), KeyTree::Leaf),
        ("_source".to_string(), KeyTree::Leaf),
        ("engine".to_string(), KeyTree::Entries(vec![("isp".to_string(), KeyTree::Leaf)])),
    ]);
    let keys = provides(&tree, "propulsion").unwrap();
    assert_eq!(keys, vec!["propulsion.thrust", "propulsion.engine.isp"]);
    assert_eq!(provides(&KeyTree::Leaf, "x"), None);
}

#[test]
fn keys_of_tables_and_markdown() {
    let table = KeyTree::Table(vec!["name".to_string(), "mass".to_string()]);
    assert_eq!(
        provides(&table, "parts").unwrap(),
        vec!["parts.row", "parts.headers", "parts.col.name", "parts.col.mass"]
    );
    let md = KeyTree::Markdown(Some(Box::new(KeyTree::Entries(vec![("version".to_string(), KeyTree::Leaf)]))));
    assert_eq!(provides(&md, "readme").unwrap(), vec!["readme.content", "readme.front_matter.version"]);
    let md_scalar = KeyTree::Markdown(Some(Box::new(KeyTree::Leaf)));
    assert_eq!(provides(&md_scalar, "n").unwrap(), vec!["n.content", "n.front_matter"]);
    assert_eq!(provides(&KeyTree::Markdown(None), "n").unwrap(), vec!["n.content"]);
}

#[test]
fn templates_become_ready_as_outputs_appear() {
    let mut state = RenderState {
        templates: vec![template(1, "a.json", &[]), template(2, "b.md", &["a", "power"])],
    };
    let provides_now = vec!["power.P0".to_string()];
    initialize_unmet_needs(&mut state, &provides_now);
    assert_eq!(state.templates[1].needs, Some(vec!["a".to_string()]));
    assert_eq!(ready_templates(&state), vec![0]);
    mark_rendered(&mut state, 0);
    assert!(is_work_remaining(&state) == false);
    update_unmet_needs(&mut state, &["a.value".to_string()]);
    assert_eq!(state.templates[1].needs, Some(vec![]));
    assert_eq!(ready_templates(&state), vec![1]);
    assert!(is_work_remaining(&state));
    mark_rendered(&mut state, 1);
    assert!(ready_templates(&state).is_empty());
}

#[test]
fn dependency_graph_links_templates_to_providers() {
    let templates = vec![
        TemplateDeps { entity: 1, template_name: "a.json".to_string(), requirements: vec![] },
        TemplateDeps { entity: 2, template_name: "b.json".to_string(), requirements: vec!["a".to_string()] },
        TemplateDeps { entity: 3, template_name: "c.md".to_string(), requirements: vec!["b.x".to_string(), "data".to_string()] },
    ];
    let graph = build_dependency_graph(&["data.k".to_string()], &templates);
    let deps_of = |e: u64| graph.edges.iter().find(|(k, _)| *k == e).map(|(_, d)| d.clone()).unwrap();
    assert_eq!(deps_of(1), Vec::<u64>::new());
    assert_eq!(deps_of(2), vec![1]);
    assert_eq!(deps_of(3), vec![2]);
}

#[test]
fn processing_status() {
    let mut s = ProcessingStatus::new();
    assert!(should_continue(&s));
    mark_error(&mut s);
    assert!(!should_continue(&s));
}

#[test]
fn runs_end_after_flushing() {
    let quiet = PhaseOutcome { errors: false, cycles: false, work_remaining: false };
    let busy = PhaseOutcome { errors: false, cycles: false, work_remaining: true };
    let mut s = start_run();
    let mut phases = vec![s.phase];
    for o in [quiet, quiet, quiet, quiet, busy, busy, quiet, quiet, quiet, quiet] {
        s = next_step(s, o);
        phases.push(s.phase);
    }
    assert_eq!(
        phases,
        vec![
            RunPhase::Load, RunPhase::Clean, RunPhase::CheckCycles, RunPhase::Prepare, RunPhase::React,
            RunPhase::React, RunPhase::React, RunPhase::Report, RunPhase::Validate, RunPhase::Flush, RunPhase::Done,
        ]
    );
    assert!(!s.has_errors);

    let failed = next_step(start_run(), PhaseOutcome { errors: true, cycles: false, work_remaining: true });
    assert_eq!(failed.phase, RunPhase::Flush);
    assert!(failed.has_errors);
    let cyc = next_step(
        vverdad::pipeline::RunState { phase: RunPhase::CheckCycles, has_errors: false },
        PhaseOutcome { errors: false, cycles: true, work_remaining: false },
    );
    assert_eq!(cyc.phase, RunPhase::Flush);
    assert!(cyc.has_errors);
}

#[test]
fn output_plans() {
    let p = plan_output(&config_with_input_and_output(InputType::Directory("/p".to_string()), OutputType::InPlace));
    assert_eq!(p, OutputPlan::InPlace { output_dir: "/p/_output".to_string() });
    let z = plan_output(&config_with_input_and_output(InputType::ZipArchive("/d/p.vv".to_string()), OutputType::InPlace));
    assert_eq!(z, OutputPlan::InPlace { output_dir: "/d/_output".to_string() });
    let d = plan_output(&config_with_input_and_output(
        InputType::Directory("/p".to_string()),
        OutputType::Directory("/rel".to_string()),
    ));
    assert_eq!(d, OutputPlan::CopyToDirectory { dest: "/rel".to_string(), output_dir: "/rel/_output".to_string() });
    let a = plan_output(&config_with_input_and_output(
        InputType::Directory("/p".to_string()),
        OutputType::Archive("o.vv".to_string()),
    ));
    assert_eq!(a, OutputPlan::CopyToArchive { archive: "o.vv".to_string() });
}

#[test]
fn render_jobs_and_unmet_report() {
    let mut state = RenderState {
        templates: vec![
            template(1, "a.json", &[]),
            template(2, "sub::b.md", &["a"]),
            template(3, "c.md", &["missing"]),
        ],
    };
    initialize_unmet_needs(&mut state, &["source.x".to_string()]);
    let jobs = render_jobs(&state, "/p/_output");
    assert_eq!(jobs.len(), 1);
    assert_eq!((jobs[0].index, jobs[0].template_name.as_str(), jobs[0].output_path.as_str()), (0, "a.json", "/p/_output/a.json"));
    let mut status = ProcessingStatus::new();
    finish_render_job(&mut state, &mut status, 0, true);
    assert!(state.templates[0].rendered && !status.has_errors);
    update_unmet_needs(&mut state, &["a.val".to_string()]);
    let jobs = render_jobs(&state, "/p/_output");
    assert_eq!(jobs.len(), 1);
    assert_eq!(jobs[0].output_path, "/p/_output/sub/b.md");
    finish_render_job(&mut state, &mut status, 1, false);
    assert!(!state.templates[1].rendered && status.has_errors);
    let report = unmet_report(&state);
    assert_eq!(report, vec![("c.md".to_string(), vec!["missing".to_string()])]);
}

#[test]
fn hidden_entries_provide_nothing() {
    let with_hidden = KeyTree::Entries(vec![
        ("_notes".to_string(), KeyTree::Entries(vec![("rev".to_string(), KeyTree::Leaf)])),
        ("isp".to_string(), KeyTree::Leaf),
        ("_source".to_string(), KeyTree::Leaf),
    ]);
    let without = KeyTree::Entries(vec![("isp".to_string(), KeyTree::Leaf)]);
    assert_eq!(provides(&with_hidden, "engine"), provides(&without, "engine"));
    assert_eq!(provides(&with_hidden, "engine"), Some(vec!["engine.isp".to_string()]));
}
