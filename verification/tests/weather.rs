use simple_notifier::storage::Storage;
use simple_notifier::weather::{DayForecast, Weather};

fn day(date: &str, code: i64) -> DayForecast {
    DayForecast {
        date: date.to_string(),
        weather_code: code,
        cold_night: None,
        hot_day: None,
        strong_wind: None,
    }
}

#[test]
fn quiet_forecast_alerts_nothing() {
    let mut tx = Storage::load("/s", &Vec::new()).transaction();
    assert!(Weather::new(true).check(&vec![day("2024-01-01", 3), day("2024-01-02", 0)], &mut tx).is_none());
    assert_eq!(tx.get("weather_alerted_dates"), None);
}

#[test]
fn alerts_list_reasons_in_order_and_dates_once() {
    let mut tx = Storage::load("/s", &Vec::new()).transaction();
    tx.set("weather_alerted_dates", "2024-01-01");
    let mut d2 = day("2024-01-02", 96);
    d2.cold_night = Some(("-3".to_string(), "5".to_string()));
    d2.hot_day = Some(("36".to_string(), "35".to_string()));
    d2.strong_wind = Some(("61".to_string()));
    let d3 = day("2024-01-03", 65);
    let days = vec![day("2024-01-01", 99), d2, d3, day("2024-01-03", 75)];
    let n = Weather::new(true).check(&days, &mut tx).expect("an alert");
    assert_eq!(n.title, "Weather alert (2 days)");
    assert_eq!(
        n.body,
        "2024-01-02:\n  Night low -3°C is below 5°C\n  Day high 36°C exceeds 35°C\n  Thunderstorm forecast\n  Strong wind (61 km/h)\n\n2024-01-03:\n  Heavy rain forecast"
    );
    assert_eq!(tx.get("weather_alerted_dates"), Some("2024-01-01,2024-01-02,2024-01-03"));
    assert!(Weather::new(true).check(&days, &mut tx).is_none());
}

#[test]
fn extreme_weather_off_ignores_codes_and_wind() {
    let mut tx = Storage::load("/s", &Vec::new()).transaction();
    let mut d = day("d1", 86);
    d.strong_wind = Some("70".to_string());
    assert!(Weather::new(false).check(&vec![d], &mut tx).is_none());
    let d = day("d1", 86);
    let n = Weather::new(true).check(&vec![d], &mut tx).unwrap();
    assert_eq!(n.title, "Weather alert (1 day)");
    assert_eq!(n.body, "d1:\n  Heavy snow forecast");
}

#[test]
fn second_check_of_the_same_forecast_is_quiet() {
    let mut tx = Storage::load("/s", &Vec::new()).transaction();
    let w = Weather::new(true);
    let days = vec![day("2024-05-01", 95), day("2024-05-02", 82)];
    let n = w.check(&days, &mut tx).expect("an alert");
    assert_eq!(n.title, "Weather alert (2 days)");
    let after_first = tx.get("weather_alerted_dates").map(|s| s.to_string());
    assert_eq!(after_first.as_deref(), Some("2024-05-01,2024-05-02"));
    assert!(w.check(&days, &mut tx).is_none());
    assert_eq!(tx.get("weather_alerted_dates").map(|s| s.to_string()), after_first);
    assert_eq!(w.extreme_weather, true);
}
