use std::cell::Cell;
use std::cell::RefCell;

use airpod_alfred_connector::bluetooth::BluetoothClient;
use airpod_alfred_connector::bluetooth::BluetoothClientError;
use airpod_alfred_connector::bluetooth::Client;
use airpod_alfred_connector::bluetooth::DeviceFilters;
use airpod_alfred_connector::bluetooth::DeviceInfo;
use airpod_alfred_connector::bluetooth::DeviceListOptions;
use airpod_alfred_connector::bluetooth::try_from_raw_str;

struct MockClient {
    devices: Vec<DeviceInfo>,
    list_calls: Cell<u32>,
    connect_calls: RefCell<Vec<String>>,
    disconnect_calls: RefCell<Vec<String>>,
}

impl MockClient {
    fn new(devices: Vec<DeviceInfo>) -> MockClient {
        MockClient {
            devices,
            list_calls: Cell::new(0),
            connect_calls: RefCell::new(Vec::new()),
            disconnect_calls: RefCell::new(Vec::new()),
        }
    }
}

impl Client for MockClient {
    fn connect_to_device(&self, address: &str) -> Result<(), BluetoothClientError> {
        self.connect_calls.borrow_mut().push(address.to_string());
        Ok(())
    }

    fn disconnect_from_device(&self, address: &str) -> Result<(), BluetoothClientError> {
        self.disconnect_calls.borrow_mut().push(address.to_string());
        Ok(())
    }

    fn get_device_list(&self) -> Vec<DeviceInfo> {
        self.list_calls.set(self.list_calls.get() + 1);
        self.devices.clone()
    }
}

fn blueutil_default_client_list() -> Vec<DeviceInfo> {
    vec![
        DeviceInfo {
            name: String::from("device1"),
            address: String::from("disconnected-address"),
            connected: false,
        },
        DeviceInfo {
            name: String::from("device2"),
            address: String::from("connected-address"),
            connected: true,
        },
        DeviceInfo {
            name: String::from("device3"),
            address: String::from("connected-address-2"),
            connected: true,
        },
    ]
}

fn default_client() -> BluetoothClient<MockClient> {
    BluetoothClient::new(MockClient::new(blueutil_default_client_list()))
}

#[test]
fn device_info_parses_raw_str() {
    let valid_str_not_connected = r#"address: 5c-2e-fg-da-a3-43, not connected, not favourite, paired, name: "AirPods Pro", recent access date: 2022-08-01 12:00:10 +0000"#;
    let valid_str_connected = r#"address: 80-3b-5c-c2-b1-7f, connected (master, 0 dBm), not favourite, paired, name: "AirPods Max", recent access date: 2022-08-01 12:10:10 +0000"#;

    let valid_device_not_connected = DeviceInfo::from_raw_str(valid_str_not_connected);
    assert_eq!(valid_device_not_connected.name, "AirPods Pro");
    assert_eq!(valid_device_not_connected.address, "5c-2e-fg-da-a3-43");
    assert_eq!(valid_device_not_connected.connected, false);

    let valid_device_connected = DeviceInfo::from_raw_str(valid_str_connected);
    assert_eq!(valid_device_connected.name, "AirPods Max");
    assert_eq!(valid_device_connected.address, "80-3b-5c-c2-b1-7f");
    assert_eq!(valid_device_connected.connected, true);
}

#[test]
#[should_panic]
fn device_info_panics_for_invalid_str() {
    let invalid_str = "address: 5c-2e-fg-da-a3-43";
    DeviceInfo::from_raw_str(invalid_str);
}

#[test]
fn dev_device_list_options_constructor() {
    let result = DeviceListOptions::new(DeviceFilters::AllDevices, Some(String::from("1234")));

    assert_eq!(result.filters, DeviceFilters::AllDevices);
    assert_eq!(result.previous_address, Some(String::from("1234")))
}

#[test]
fn dev_device_list_default_all_devices() {
    let result = DeviceListOptions::new_default_all_devices();

    assert_eq!(result.filters, DeviceFilters::AllDevices);
    assert_eq!(result.previous_address, None);
}

#[test]
fn bluetooth_client_connect_to_device() {
    let client = BluetoothClient::new(MockClient::new(vec![]));

    client.connect_to_device("address").unwrap();

    assert_eq!(*client.blueutil_client.connect_calls.borrow(), vec!["address"]);
}

#[test]
fn bluetooth_client_disconnect_from_device() {
    let client = BluetoothClient::new(MockClient::new(vec![]));

    client.disconnect_from_device("address").unwrap();

    assert_eq!(*client.blueutil_client.disconnect_calls.borrow(), vec!["address"]);
}

#[test]
fn bluetooth_client_toggle_connected_status_disconnects_a_connected_device() {
    let client = default_client();

    client.toggle_connected_status("disconnected-address").unwrap();

    assert_eq!(client.blueutil_client.connect_calls.borrow().len(), 1);
    assert_eq!(client.blueutil_client.disconnect_calls.borrow().len(), 0);
}

#[test]
fn bluetooth_client_toggle_connected_status_connects_a_disconnected_device() {
    let client = default_client();

    client.toggle_connected_status("connected-address").unwrap();

    assert_eq!(client.blueutil_client.connect_calls.borrow().len(), 0);
    assert_eq!(client.blueutil_client.disconnect_calls.borrow().len(), 1);
}

#[test]
fn bluetooth_client_get_device_list_calls_client() {
    let client = BluetoothClient::new(MockClient::new(vec![]));

    client.get_device_list(DeviceListOptions::new_default_all_devices());

    assert_eq!(client.blueutil_client.list_calls.get(), 1);
}

#[test]
fn bluetooth_client_get_device_list_filters_all() {
    let client = default_client();

    let devices = client.get_device_list(DeviceListOptions {
        filters: DeviceFilters::AllDevices,
        previous_address: None,
    });
    let all_devices = blueutil_default_client_list();

    assert_eq!(devices.len(), all_devices.len());
    assert!(devices.contains(&all_devices[0]));
    assert!(devices.contains(&all_devices[1]));
    assert!(devices.contains(&all_devices[2]));
}

#[test]
fn bluetooth_client_get_device_list_filters_regex() {
    let client = default_client();

    let devices = client.get_device_list(DeviceListOptions {
        filters: DeviceFilters::Regex {
            value: String::from("device1"),
        },
        previous_address: None,
    });
    assert_eq!(devices.len(), 1);
    assert_eq!(devices[0].name, "device1");
    assert_eq!(devices[0].address, "disconnected-address");
    assert_eq!(devices[0].connected, false);
}

#[test]
fn bluetooth_client_get_device_list_filters_specific_address() {
    let client = default_client();

    let devices = client.get_device_list(DeviceListOptions {
        filters: DeviceFilters::SpecificAddresses {
            addresses: vec![String::from("connected-address-2")],
        },
        previous_address: None,
    });
    assert_eq!(devices.len(), 1);
    assert_eq!(devices[0].name, "device3");
    assert_eq!(devices[0].address, "connected-address-2");
    assert_eq!(devices[0].connected, true);
}

#[test]
fn bluetooth_client_get_device_list_filters_specific_addresses() {
    let client = default_client();

    let devices = client.get_device_list(DeviceListOptions {
        filters: DeviceFilters::SpecificAddresses {
            addresses: vec![
                String::from("connected-address"),
                String::from("connected-address-2"),
            ],
        },
        previous_address: None,
    });
    assert_eq!(devices.len(), 2);
    assert_eq!(devices[0].name, "device2");
    assert_eq!(devices[1].name, "device3");
}

#[test]
fn bluetooth_client_get_device_list_moves_previous_address_to_top() {
    let client = default_client();

    vec![
        String::from("connected-address"),
        String::from("connected-address-2"),
        String::from("disconnected-address"),
    ]
    .into_iter()
    .for_each(|address| {
        let devices = client.get_device_list(DeviceListOptions {
            filters: DeviceFilters::AllDevices,
            previous_address: Some(address.clone()),
        });

        assert_eq!(devices.len(), 3);
        assert_eq!(devices[0].address, address);
    });
}

#[test]
fn bluetooth_client_is_device_connected() {
    let client = default_client();

    assert_eq!(client.is_device_connected("connected-address").unwrap(), true,);

    assert_eq!(client.is_device_connected("disconnected-address").unwrap(), false,);
}

#[test]
fn toggle_reports_the_new_connection_state() {
    let client = default_client();

    assert_eq!(client.toggle_connected_status("connected-address").unwrap(), false);
    assert_eq!(client.toggle_connected_status("disconnected-address").unwrap(), true);
}

#[test]
fn toggle_fails_with_not_found_for_an_unknown_address() {
    let client = default_client();

    let err = client.toggle_connected_status("missing").unwrap_err();
    assert_eq!(err.description(), "Could not find device id : 'missing'");
    assert_eq!(client.blueutil_client.connect_calls.borrow().len(), 0);
    assert_eq!(client.blueutil_client.disconnect_calls.borrow().len(), 0);
}

#[test]
fn get_device_info_returns_the_matching_record() {
    let client = default_client();

    let device = client.get_device_info("Connected-Address").unwrap();
    assert_eq!(device.name, "device2");
    assert_eq!(device.address, "connected-address");
    assert_eq!(device.connected, true);
}

#[test]
fn get_device_info_fails_with_not_found_for_an_unknown_address() {
    let client = default_client();

    let err = client.get_device_info("no-such-device").unwrap_err();
    assert_eq!(err.description(), "Could not find device id : 'no-such-device'");
}

#[test]
fn address_filter_matches_case_insensitively() {
    let client = default_client();

    let devices = client.get_device_list(DeviceListOptions {
        filters: DeviceFilters::SpecificAddresses {
            addresses: vec![String::from("CONNECTED-ADDRESS")],
        },
        previous_address: None,
    });
    assert_eq!(devices.len(), 1);
    assert_eq!(devices[0].name, "device2");
}

#[test]
fn name_filter_matches_case_insensitively() {
    let devices = vec![DeviceInfo {
        name: String::from("AirPods Pro"),
        address: String::from("5c-2e-fg-da-a3-43"),
        connected: false,
    }];
    let client = BluetoothClient::new(MockClient::new(devices));

    let found = client.get_device_list(DeviceListOptions {
        filters: DeviceFilters::Regex {
            value: String::from("airpods"),
        },
        previous_address: None,
    });
    assert_eq!(found.len(), 1);
    assert_eq!(found[0].name, "AirPods Pro");
}

#[test]
fn connected_devices_come_first_and_groups_stay_stable() {
    let mk = |name: &str, address: &str, connected: bool| DeviceInfo {
        name: String::from(name),
        address: String::from(address),
        connected,
    };
    let devices = vec![
        mk("a", "addr-a", false),
        mk("b", "addr-b", true),
        mk("c", "addr-c", false),
        mk("d", "addr-d", true),
    ];
    let client = BluetoothClient::new(MockClient::new(devices));

    let listed = client.get_device_list(DeviceListOptions::new_default_all_devices());

    let names: Vec<&str> = listed.iter().map(|d| d.name.as_str()).collect();
    assert_eq!(names, vec!["b", "d", "a", "c"]);
}

#[test]
fn try_from_raw_str_rejects_a_malformed_line() {
    assert!(try_from_raw_str("address: 5c-2e-fg-da-a3-43").is_none());
    assert!(try_from_raw_str("").is_none());
    assert!(try_from_raw_str("garbage").is_none());
    // Address shorter than 17 identifier characters.
    assert!(try_from_raw_str(r#"address: 5c-2e, connected, name: "x""#).is_none());
    // The name part never closes its quote.
    assert!(
        try_from_raw_str(r#"address: 5c-2e-fg-da-a3-43, connected, name: "x"#).is_none()
    );
}

#[test]
fn try_from_raw_str_parses_a_valid_line() {
    let line = r#"address: 80-3b-5c-c2-b1-7f, connected (master, 0 dBm), not favourite, paired, name: "AirPods Max", recent access date: 2022-08-01 12:10:10 +0000"#;
    let device = try_from_raw_str(line).unwrap();
    assert_eq!(device.name, "AirPods Max");
    assert_eq!(device.address, "80-3b-5c-c2-b1-7f");
    assert!(device.connected);
}

#[test]
fn parses_an_empty_name() {
    let line = r#"address: 80-3b-5c-c2-b1-7f, connected, name: """#;
    let device = try_from_raw_str(line).unwrap();
    assert_eq!(device.name, "");
    assert_eq!(device.address, "80-3b-5c-c2-b1-7f");
    assert!(device.connected);
}

#[test]
fn end_to_end_listing_pipeline() {
    let raw_lines = vec![
        r#"address: disconnected-addr, not connected, paired, name: "device1""#,
        r#"address: connected-address, connected, paired, name: "device2""#,
        r#"address: connected-addres2, connected, paired, name: "device3""#,
    ];
    let devices: Vec<DeviceInfo> = raw_lines
        .iter()
        .map(|line| DeviceInfo::from_raw_str(line))
        .collect();
    assert_eq!(devices[0].name, "device1");
    assert_eq!(devices[0].address, "disconnected-addr");
    assert!(!devices[0].connected);
    assert!(devices[1].connected);
    assert!(devices[2].connected);

    let client = BluetoothClient::new(MockClient::new(devices));

    let by_addresses = client.get_device_list(DeviceListOptions {
        filters: DeviceFilters::SpecificAddresses {
            addresses: vec![
                String::from("connected-address"),
                String::from("connected-addres2"),
            ],
        },
        previous_address: None,
    });
    let names: Vec<&str> = by_addresses.iter().map(|d| d.name.as_str()).collect();
    assert_eq!(names, vec!["device2", "device3"]);

    let by_name = client.get_device_list(DeviceListOptions {
        filters: DeviceFilters::Regex {
            value: String::from("device1"),
        },
        previous_address: None,
    });
    assert_eq!(by_name.len(), 1);
    assert_eq!(by_name[0].name, "device1");

    let with_hint = client.get_device_list(DeviceListOptions {
        filters: DeviceFilters::AllDevices,
        previous_address: Some(String::from("disconnected-addr")),
    });
    assert_eq!(with_hint[0].name, "device1");
}
