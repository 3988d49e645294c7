use correlation_core::chaos::{
    applied, pumba_args, pumba_failure, reset_url, revert_url, toxic_url, toxics_url, FaultSpec, Toxic,
};
use correlation_core::json::Json;

fn toxic(name: &str) -> Toxic {
    Toxic {
        name: name.into(),
        toxic_type: "latency".into(),
        stream: "downstream".into(),
        toxicity: 1.0f64.to_bits(),
        attributes: Json::Object(vec![]),
    }
}

#[test]
fn toxiproxy_endpoints() {
    assert_eq!(reset_url("http://toxi:8474"), "http://toxi:8474/reset");
    assert_eq!(toxics_url("http://toxi:8474", "pg"), "http://toxi:8474/proxies/pg/toxics");
    assert_eq!(toxic_url("http://toxi:8474", "pg", "slow"), "http://toxi:8474/proxies/pg/toxics/slow");
}

#[test]
fn applying_a_toxic_keeps_its_name_for_the_revert() {
    let h = applied(FaultSpec::Toxiproxy { proxy: "pg".into(), toxic: toxic("slow") });
    assert_eq!(h.revert_token, "slow");
    assert_eq!(revert_url("http://toxi:8474", &h), Some("http://toxi:8474/proxies/pg/toxics/slow".to_string()));
    let k = applied(FaultSpec::PumbaKill { container: "auth".into() });
    assert_eq!(k.revert_token, "");
    assert_eq!(revert_url("http://toxi:8474", &k), None);
}

#[test]
fn container_fault_commands() {
    assert_eq!(
        pumba_args(&FaultSpec::PumbaKill { container: "auth".into() }),
        Some(vec!["kill".to_string(), "--signal".into(), "SIGKILL".into(), "auth".into()])
    );
    assert_eq!(
        pumba_args(&FaultSpec::PumbaPause { container: "db".into(), duration_sec: 30 }),
        Some(vec!["pause".to_string(), "--duration".into(), "30s".into(), "db".into()])
    );
    assert_eq!(
        pumba_args(&FaultSpec::PumbaStress { container: "api".into(), cpus: 2, duration_sec: 15 }),
        Some(vec![
            "--log-level".to_string(),
            "info".into(),
            "stress".into(),
            "--stress-image".into(),
            "alexeiled/stress-ng:latest".into(),
            "--duration".into(),
            "15s".into(),
            "--stressors".into(),
            "--cpu 2 --timeout 15s".into(),
            "api".into(),
        ])
    );
    assert_eq!(pumba_args(&FaultSpec::Toxiproxy { proxy: "pg".into(), toxic: toxic("x") }), None);
    assert_eq!(pumba_failure(&FaultSpec::PumbaPause { container: "db".into(), duration_sec: 1 }), "pumba pause failed");
}
