use wifi_exporter::config::{
    default_address, default_mqtt_port, Config, ExporterConfig, MqttConfig, SshConfig,
};

#[test]
fn default_broker_port_is_1883() {
    assert_eq!(default_mqtt_port(), 1883);
}

#[test]
fn default_exporter_address_is_loopback() {
    assert_eq!(default_address(), "127.0.0.1");
}

#[test]
fn configuration_holds_its_plain_values() {
    let config = Config {
        mqtt: Some(MqttConfig {
            hostname: "broker.local".to_string(),
            port: default_mqtt_port(),
            username: "exporter".to_string(),
            password_file: "/run/secrets/mqtt".to_string(),
        }),
        ssh: SshConfig {
            address: "192.168.1.1:22".to_string(),
            pubkey_file: "/run/secrets/id.pub".to_string(),
            key_file: "/run/secrets/id".to_string(),
        },
        exporter: ExporterConfig {
            address: default_address(),
            port: 9100,
            interfaces: vec!["wlan0".to_string()],
        },
    };
    let mqtt = config.mqtt.as_ref().unwrap();
    assert_eq!(mqtt.hostname, "broker.local");
    assert_eq!(mqtt.port, 1883);
    assert_eq!(config.ssh.address, "192.168.1.1:22");
    assert_eq!(config.exporter.interfaces.len(), 1);
}
