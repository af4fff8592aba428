use json::misc::{gcd, real_ip, Header, Request};
use json::trace::{Level, Logger};

#[test]
fn greatest_common_divisor() {
    assert_eq!(gcd(12, 18), 6);
    assert_eq!(gcd(18, 12), 6);
    assert_eq!(gcd(17, 5), 1);
    assert_eq!(gcd(0, 9), 9);
    assert_eq!(gcd(9, 0), 9);
    assert_eq!(gcd(0, 0), 0);
    assert_eq!(gcd(usize::MAX, usize::MAX), usize::MAX);
}

#[test]
fn levels() {
    assert_eq!(Level::Off.as_str(), "OFF");
    assert_eq!(Level::Error.as_str(), "ERROR");
    assert_eq!(Level::Info.as_str(), "INFO");
    assert_eq!(Level::Debug.as_str(), "DEBUG");
    assert_eq!(Level::Off.as_u8(), 0);
    assert_eq!(Level::Error.as_u8(), 1);
    assert_eq!(Level::Info.as_u8(), 2);
    assert_eq!(Level::Debug.as_u8(), 3);
    assert_eq!(Level::Info.get_color(), "\x1b[0m");
    assert_eq!(Level::Error.get_color(), "\x1b[31m");
    assert_eq!(Level::Debug.get_color(), "\x1b[36m");
}

#[test]
fn new_logger_logs_everything_in_colour() {
    let logger = Logger::new();
    assert!(logger.uses_color());
    assert_eq!(
        logger.error("boom"),
        Some("[ERROR] \x1b[31mboom\x1b[0m".to_string())
    );
    assert_eq!(
        logger.info("note"),
        Some("[INFO] \x1b[0mnote\x1b[0m".to_string())
    );
    assert_eq!(
        logger.debug("detail"),
        Some("[DEBUG] \x1b[36mdetail\x1b[0m".to_string())
    );
    assert_eq!(Logger::default().debug(""), Some("[DEBUG] \x1b[36m\x1b[0m".to_string()));
}

#[test]
fn logger_filters_by_level() {
    let mut logger = Logger::new();
    logger.level(Level::Info).color(false);
    assert!(!logger.uses_color());
    assert_eq!(logger.error("e"), Some("[ERROR] e".to_string()));
    assert_eq!(logger.info("i"), Some("[INFO] i".to_string()));
    assert_eq!(logger.debug("d"), None);
    logger.level(Level::Error);
    assert_eq!(logger.info("i"), None);
    assert_eq!(logger.log(Level::Error, "e"), Some("[ERROR] e".to_string()));
    logger.level(Level::Off);
    assert_eq!(logger.error("e"), None);
    assert_eq!(logger.log(Level::Off, "o"), Some("[OFF] o".to_string()));
}

fn request(address: &str, headers: &[(&str, &str)]) -> Request {
    Request {
        address: address.to_string(),
        headers: headers
            .iter()
            .map(|(name, value)| Header {
                name: name.to_string(),
                value: value.to_string(),
            })
            .collect(),
    }
}

#[test]
fn real_ip_is_the_host_of_the_address() {
    assert_eq!(real_ip(&request("10.1.2.3:4000", &[])), "10.1.2.3");
    assert_eq!(
        real_ip(&request(
            "10.1.2.3:4000",
            &[("X-Forwarded-For", "9.9.9.9, 8.8.8.8")]
        )),
        "10.1.2.3"
    );
    assert_eq!(real_ip(&request(":80", &[])), "");
    assert_eq!(real_ip(&request("a:b:c", &[])), "a");
}

#[test]
fn real_ip_behind_a_local_proxy_is_the_forwarded_one() {
    assert_eq!(real_ip(&request("127.0.0.1:80", &[])), "127.0.0.1");
    assert_eq!(
        real_ip(&request(
            "127.0.0.1:80",
            &[
                ("Host", "example.org"),
                ("X-Forwarded-For", "9.9.9.9, 8.8.8.8"),
                ("X-Forwarded-For", "7.7.7.7,"),
            ]
        )),
        "9.9.9.9"
    );
    assert_eq!(
        real_ip(&request("127.0.0.1:80", &[("x-forwarded-for", "9.9.9.9,")])),
        "127.0.0.1"
    );
}
