//! The weather notifier's decisions: which forecast days to alert about,
//! and each date at most once.
//!
//! The temperature and wind comparisons are made on floating-point values
//! by the caller; a [`DayForecast`] carries their outcome and the numbers
//! as they are printed.

use vstd::prelude::*;

use crate::notifier::{Notification, opt_notification_view};
use crate::storage::{Transaction, map_get};
use crate::text::{
    int_text, join, join_strings, nonempty_trimmed, push_decimal, split, to_owned_string, trim,
    trimmed_pieces, views,
};

verus! {

/// One day of the forecast.
pub struct DayForecast {
    pub date: String,
    pub weather_code: i64,
    /// The night low and the threshold, as printed, when a night-low
    /// threshold is set and the low is below it.
    pub cold_night: Option<(String, String)>,
    /// The day high and the threshold, as printed, when a day-high threshold
    /// is set and the high is above it.
    pub hot_day: Option<(String, String)>,
    /// The maximum wind speed, as printed, when it exceeds 50 km/h.
    pub strong_wind: Option<String>,
}

/// Where the dates already alerted about are kept, separated by commas.
pub open spec fn alerted_key() -> Seq<char> {
    "weather_alerted_dates"@
}

/// The extreme weather that a WMO weather code stands for, if any.
pub open spec fn code_reason(code: i64) -> Option<Seq<char>> {
    if 95 <= code <= 99 {
        Some("Thunderstorm forecast"@)
    } else if code == 65 || code == 82 {
        Some("Heavy rain forecast"@)
    } else if code == 75 || code == 86 {
        Some("Heavy snow forecast"@)
    } else {
        None
    }
}

/// The reasons to alert about a day, in order: a cold night, a hot day,
/// and, when extreme weather is watched, the weather code and strong wind.
pub open spec fn day_reasons(extreme: bool, d: DayForecast) -> Seq<Seq<char>> {
    let cold = match d.cold_night {
        Some(p) => seq!["Night low "@ + p.0@ + "°C is below "@ + p.1@ + "°C"@],
        None => Seq::empty(),
    };
    let hot = match d.hot_day {
        Some(p) => seq!["Day high "@ + p.0@ + "°C exceeds "@ + p.1@ + "°C"@],
        None => Seq::empty(),
    };
    let code = if extreme {
        match code_reason(d.weather_code) {
            Some(t) => seq![t],
            None => Seq::empty(),
        }
    } else {
        Seq::empty()
    };
    let wind = if extreme {
        match d.strong_wind {
            Some(w) => seq!["Strong wind ("@ + w@ + " km/h)"@],
            None => Seq::empty(),
        }
    } else {
        Seq::empty()
    };
    cold + hot + code + wind
}

/// The alert for one day.
pub open spec fn day_alert(date: Seq<char>, reasons: Seq<Seq<char>>) -> Seq<char> {
    date + ":\n  "@ + join(reasons, "\n  "@)
}

/// The alerts for the days, and their dates: days already alerted about,
/// or seen earlier in the forecast, are skipped.
pub open spec fn alert_state(
    extreme: bool,
    days: Seq<DayForecast>,
    alerted: Seq<Seq<char>>,
) -> (Seq<Seq<char>>, Seq<Seq<char>>)
    decreases days.len(),
{
    if days.len() == 0 {
        (Seq::empty(), Seq::empty())
    } else {
        let (alerts, newly) = alert_state(extreme, days.drop_last(), alerted);
        let d = days.last();
        if alerted.contains(d.date@) || newly.contains(d.date@) {
            (alerts, newly)
        } else {
            let rs = day_reasons(extreme, d);
            if rs.len() > 0 {
                (alerts.push(day_alert(d.date@, rs)), newly.push(d.date@))
            } else {
                (alerts, newly)
            }
        }
    }
}

/// The dates recorded as alerted about.
pub open spec fn alerted_dates(tx: Map<Seq<char>, Seq<char>>) -> Seq<Seq<char>> {
    match map_get(tx, alerted_key()) {
        Some(s) => nonempty_trimmed(split(s, ',')),
        None => Seq::empty(),
    }
}

/// The title of an alert about `n` days.
pub open spec fn alert_title(n: nat) -> Seq<char> {
    "Weather alert ("@ + int_text(n as int) + " day"@ + (if n == 1 {
        ""@
    } else {
        "s"@
    }) + ")"@
}

/// The state after checking the forecast, and the alert, if any: the dates
/// alerted about are added to the recorded ones.
pub open spec fn forecast_outcome(
    extreme: bool,
    days: Seq<DayForecast>,
    tx: Map<Seq<char>, Seq<char>>,
) -> (Map<Seq<char>, Seq<char>>, Option<(Seq<char>, Seq<char>)>) {
    let alerted = alerted_dates(tx);
    let (alerts, newly) = alert_state(extreme, days, alerted);
    if alerts.len() == 0 {
        (tx, None)
    } else {
        (
            tx.insert(alerted_key(), join(alerted + newly, ","@)),
            Some((alert_title(alerts.len()), join(alerts, "\n\n"@))),
        )
    }
}

/// Law: each date is alerted about at most once. The new dates were not
/// recorded before and are distinct, there is one alert per new date, and
/// they are kept next to the recorded ones.
pub proof fn law_dates_alerted_once(
    extreme: bool,
    days: Seq<DayForecast>,
    alerted: Seq<Seq<char>>,
)
    ensures
        alert_state(extreme, days, alerted).0.len() == alert_state(extreme, days, alerted).1.len(),
        alert_state(extreme, days, alerted).1.no_duplicates(),
        forall|i: int|
            0 <= i < alert_state(extreme, days, alerted).1.len() ==> !alerted.contains(
                #[trigger] alert_state(extreme, days, alerted).1[i],
            ),
    decreases days.len(),
{
    if days.len() > 0 {
        law_dates_alerted_once(extreme, days.drop_last(), alerted);
        let (alerts, newly) = alert_state(extreme, days.drop_last(), alerted);
        let d = days.last();
        if !(alerted.contains(d.date@) || newly.contains(d.date@)) && day_reasons(
            extreme,
            d,
        ).len() > 0 {
            let n2 = newly.push(d.date@);
            assert forall|i: int, j: int|
                0 <= i < n2.len() && 0 <= j < n2.len() && i != j implies n2[i] != n2[j] by {
                if i < newly.len() && j < newly.len() {
                } else if i < newly.len() {
                    assert(newly.contains(newly[i]));
                } else {
                    assert(newly.contains(newly[j]));
                }
            }
        }
    }
}

/// A storable date: nonempty, trimmed and free of commas, so that it reads
/// back from the comma-separated record.
pub open spec fn date_storable(d: Seq<char>) -> bool {
    d.len() > 0 && trim(d) == d && !d.contains(',')
}

/// Every day with reasons whose date is not recorded ends up among the new
/// dates, and every new date is the date of some day.
pub proof fn lemma_alert_state_covers(extreme: bool, days: Seq<DayForecast>, alerted: Seq<Seq<char>>)
    ensures
        forall|i: int|
            0 <= i < days.len() && day_reasons(extreme, #[trigger] days[i]).len() > 0
                && !alerted.contains(days[i].date@) ==> alert_state(extreme, days, alerted).1.contains(
                days[i].date@,
            ),
        forall|i: int|
            0 <= i < alert_state(extreme, days, alerted).1.len() ==> exists|j: int|
                0 <= j < days.len() && (#[trigger] alert_state(extreme, days, alerted).1[i])
                    == days[j].date@,
    decreases days.len(),
{
    if days.len() > 0 {
        let ps = days.drop_last();
        let d = days.last();
        lemma_alert_state_covers(extreme, ps, alerted);
        let n = alert_state(extreme, ps, alerted).1;
        let all = alert_state(extreme, days, alerted).1;
        assert(days[days.len() - 1] == d);
        assert(all == n || all == n.push(d.date@));
        assert forall|i: int|
            0 <= i < days.len() && day_reasons(extreme, #[trigger] days[i]).len() > 0
                && !alerted.contains(days[i].date@) implies all.contains(days[i].date@) by {
            if i < ps.len() {
                assert(ps[i] == days[i]);
                let j = choose|j: int| 0 <= j < n.len() && n[j] == ps[i].date@;
                if all != n {
                    assert(all[j] == n[j]);
                }
            } else {
                if n.contains(d.date@) {
                    let j = choose|j: int| 0 <= j < n.len() && n[j] == d.date@;
                    if all != n {
                        assert(all[j] == n[j]);
                    }
                } else {
                    assert(all[all.len() - 1] == d.date@);
                }
            }
        }
        assert forall|i: int| 0 <= i < all.len() implies exists|j: int|
            0 <= j < days.len() && (#[trigger] all[i]) == days[j].date@ by {
            if i < n.len() {
                assert(all[i] == n[i]);
                let j = choose|j: int| 0 <= j < ps.len() && n[i] == ps[j].date@;
                assert(days[j] == ps[j]);
            } else {
                assert(all[i] == days[days.len() - 1].date@);
            }
        }
    }
}

/// With every day that has reasons already recorded, nothing is alerted.
pub proof fn lemma_alert_state_quiet(extreme: bool, days: Seq<DayForecast>, alerted: Seq<Seq<char>>)
    requires
        forall|i: int|
            0 <= i < days.len() && day_reasons(extreme, #[trigger] days[i]).len() > 0
                ==> alerted.contains(days[i].date@),
    ensures
        alert_state(extreme, days, alerted).0.len() == 0,
        alert_state(extreme, days, alerted).1.len() == 0,
    decreases days.len(),
{
    if days.len() > 0 {
        assert forall|i: int|
            0 <= i < days.drop_last().len() && day_reasons(extreme, #[trigger] days.drop_last()[i]).len()
                > 0 implies alerted.contains(days.drop_last()[i].date@) by {
            assert(days.drop_last()[i] == days[i]);
        }
        lemma_alert_state_quiet(extreme, days.drop_last(), alerted);
        assert(days[days.len() - 1] == days.last());
    }
}

/// Law: the weather codes that count as extreme weather. Codes 95 to 99
/// are thunderstorms, 65 and 82 heavy rain, 75 and 86 heavy snow, and no
/// other code counts.
pub proof fn law_extreme_weather_codes(code: i64)
    ensures
        code_reason(code) == Some("Thunderstorm forecast"@) <==> 95 <= code <= 99,
        code_reason(code) == Some("Heavy rain forecast"@) <==> code == 65 || code == 82,
        code_reason(code) == Some("Heavy snow forecast"@) <==> code == 75 || code == 86,
        code_reason(code) is None <==> !(95 <= code <= 99 || code == 65 || code == 82 || code == 75
            || code == 86),
{
    reveal_strlit("Thunderstorm forecast");
    reveal_strlit("Heavy rain forecast");
    reveal_strlit("Heavy snow forecast");
    assert("Thunderstorm forecast"@.len() != "Heavy rain forecast"@.len());
    assert("Thunderstorm forecast"@.len() != "Heavy snow forecast"@.len());
    assert("Heavy rain forecast"@[6] != "Heavy snow forecast"@[6]);
}

/// Law: what a day is alerted for. A night below the threshold and a day
/// above it are reasons whether or not extreme weather is watched, and they
/// come first; watching extreme weather only adds the reasons of the
/// weather code and of strong wind, after them.
pub proof fn law_day_reasons(d: DayForecast)
    ensures
        ({
            let mild = day_reasons(false, d);
            let all = day_reasons(true, d);
            let cold_n: int = if d.cold_night is Some { 1 } else { 0 };
            let hot_n: int = if d.hot_day is Some { 1 } else { 0 };
            let code_n: int = if code_reason(d.weather_code) is Some { 1 } else { 0 };
            let wind_n: int = if d.strong_wind is Some { 1 } else { 0 };
            &&& mild.len() == cold_n + hot_n
            &&& all.len() == cold_n + hot_n + code_n + wind_n
            &&& all.take(mild.len() as int) == mild
            &&& forall|extreme: bool|
                d.cold_night matches Some(p) ==> #[trigger] day_reasons(extreme, d)[0] == "Night low "@
                    + p.0@ + "°C is below "@ + p.1@ + "°C"@
            &&& forall|extreme: bool|
                d.hot_day matches Some(p) ==> #[trigger] day_reasons(extreme, d)[cold_n]
                    == "Day high "@ + p.0@ + "°C exceeds "@ + p.1@ + "°C"@
            &&& code_reason(d.weather_code) matches Some(t) ==> all[cold_n + hot_n] == t
            &&& d.strong_wind matches Some(w) ==> all[cold_n + hot_n + code_n] == "Strong wind ("@
                + w@ + " km/h)"@
        }),
{
    let mild = day_reasons(false, d);
    let all = day_reasons(true, d);
    assert(all.take(mild.len() as int) =~= mild);
}

/// Law: a forecast day that has reasons to alert about and whose date is
/// not recorded yet makes the check alert, and its date is among the new
/// dates.
pub proof fn law_unrecorded_day_is_alerted(
    extreme: bool,
    days: Seq<DayForecast>,
    tx: Map<Seq<char>, Seq<char>>,
    i: int,
)
    requires
        0 <= i < days.len(),
        day_reasons(extreme, days[i]).len() > 0,
        !alerted_dates(tx).contains(days[i].date@),
    ensures
        forecast_outcome(extreme, days, tx).1 is Some,
        alert_state(extreme, days, alerted_dates(tx)).1.contains(days[i].date@),
{
    lemma_alert_state_covers(extreme, days, alerted_dates(tx));
    law_dates_alerted_once(extreme, days, alerted_dates(tx));
}

/// Law: a day is alerted about once. When `Weather::check` runs twice on
/// the same forecast, the second run alerts about nothing and leaves the
/// state as the first left it, when every date is nonempty, trimmed and
/// free of commas (others do not read back from the record).
pub proof fn law_forecast_alerted_once(
    w: Weather,
    days: Seq<DayForecast>,
    tx: Map<Seq<char>, Seq<char>>,
)
    requires
        forall|i: int| 0 <= i < days.len() ==> date_storable(#[trigger] days[i].date@),
    ensures
        forecast_outcome(w.extreme_weather, days, forecast_outcome(w.extreme_weather, days, tx).0).1 is None,
        forecast_outcome(w.extreme_weather, days, forecast_outcome(w.extreme_weather, days, tx).0).0
            == forecast_outcome(w.extreme_weather, days, tx).0,
{
    let extreme = w.extreme_weather;
    let alerted = alerted_dates(tx);
    let (alerts, newly) = alert_state(extreme, days, alerted);
    if alerts.len() > 0 {
        let all = alerted + newly;
        lemma_alert_state_covers(extreme, days, alerted);
        if map_get(tx, alerted_key()) is Some {
            let stored = map_get(tx, alerted_key())->0;
            crate::text::lemma_split_pieces_lack_sep(stored, ',');
            crate::text::lemma_nonempty_trimmed_pieces(split(stored, ','), ',');
        }
        assert forall|i: int| 0 <= i < all.len() implies (#[trigger] all[i]).len() > 0 && trim(all[i])
            == all[i] && !all[i].contains(',') by {
            if i < alerted.len() {
                assert(all[i] == alerted[i]);
            } else {
                assert(all[i] == newly[i - alerted.len()]);
                let j = choose|j: int| 0 <= j < days.len() && newly[i - alerted.len()] == days[j].date@;
                assert(date_storable(days[j].date@));
            }
        }
        crate::text::lemma_comma_list_read_back(all);
        let tx1 = forecast_outcome(extreme, days, tx).0;
        assert(alerted_dates(tx1) == all);
        assert forall|i: int|
            0 <= i < days.len() && day_reasons(extreme, #[trigger] days[i]).len() > 0 implies all.contains(
            days[i].date@,
        ) by {
            if alerted.contains(days[i].date@) {
                let j = choose|j: int| 0 <= j < alerted.len() && alerted[j] == days[i].date@;
                assert(all[j] == alerted[j]);
            } else {
                let j = choose|j: int| 0 <= j < newly.len() && newly[j] == days[i].date@;
                assert(all[alerted.len() + j] == newly[j]);
            }
        }
        lemma_alert_state_quiet(extreme, days, all);
    }
}

fn contains_string(v: &Vec<String>, s: &String) -> (r: bool)
    ensures
        r == views(v@).contains(s@),
{
    let mut i: usize = 0;
    while i < v.len()
        invariant
            i <= v@.len(),
            forall|j: int| 0 <= j < i ==> v@[j]@ != s@,
        decreases v@.len() - i,
    {
        if v[i] == *s {
            assert(views(v@)[i as int] == s@);
            return true;
        }
        i = i + 1;
    }
    proof {
        if views(v@).contains(s@) {
            let j = choose|j: int| 0 <= j < views(v@).len() && views(v@)[j] == s@;
            assert(v@[j]@ == s@);
        }
    }
    false
}

fn code_reason_exec(code: i64) -> (r: Option<&'static str>)
    ensures
        match r {
            Some(t) => code_reason(code) == Some(t@),
            None => code_reason(code) is None,
        },
{
    if 95 <= code && code <= 99 {
        Some("Thunderstorm forecast")
    } else if code == 65 || code == 82 {
        Some("Heavy rain forecast")
    } else if code == 75 || code == 86 {
        Some("Heavy snow forecast")
    } else {
        None
    }
}

fn push_reason(reasons: &mut Vec<String>, r: String)
    ensures
        views(final(reasons)@) == views(old(reasons)@).push(r@),
{
    let ghost before = reasons@;
    reasons.push(r);
    assert(views(reasons@) =~= views(before).push(r@));
}

fn day_reasons_exec(extreme: bool, d: &DayForecast) -> (r: Vec<String>)
    ensures
        views(r@) == day_reasons(extreme, *d),
{
    let mut reasons: Vec<String> = Vec::new();
    let ghost e = Seq::<Seq<char>>::empty();
    assert(views(reasons@) =~= e);
    match &d.cold_night {
        Some(p) => {
            let mut t = to_owned_string("Night low ");
            t.append(p.0.as_str());
            t.append("°C is below ");
            t.append(p.1.as_str());
            t.append("°C");
            push_reason(&mut reasons, t);
        },
        None => {},
    }
    match &d.hot_day {
        Some(p) => {
            let mut t = to_owned_string("Day high ");
            t.append(p.0.as_str());
            t.append("°C exceeds ");
            t.append(p.1.as_str());
            t.append("°C");
            push_reason(&mut reasons, t);
        },
        None => {},
    }
    if extreme {
        match code_reason_exec(d.weather_code) {
            Some(t) => push_reason(&mut reasons, to_owned_string(t)),
            None => {},
        }
        match &d.strong_wind {
            Some(w) => {
                let mut t = to_owned_string("Strong wind (");
                t.append(w.as_str());
                t.append(" km/h)");
                push_reason(&mut reasons, t);
            },
            None => {},
        }
    }
    assert(views(reasons@) =~= day_reasons(extreme, *d));
    reasons
}

/// The weather notifier. The thresholds are compared by the caller, who
/// fetches the forecast; the notifier keeps whether extreme weather
/// (storms, heavy rain or snow, strong wind) is alerted about.
pub struct Weather {
    pub extreme_weather: bool,
}

impl Weather {
    pub fn new(extreme_weather: bool) -> (w: Weather)
        ensures
            w.extreme_weather == extreme_weather,
    {
        Weather { extreme_weather }
    }

    /// Checks the forecast days against the recorded dates, and returns the
    /// alert for the days that need one.
    pub fn check(&self, days: &Vec<DayForecast>, tx: &mut Transaction) -> (r: Option<Notification>)
        ensures
            (final(tx)@, opt_notification_view(r)) == forecast_outcome(
                self.extreme_weather,
                days@,
                old(tx)@,
            ),
    {
        let extreme_weather = self.extreme_weather;
        let key = "weather_alerted_dates";
        let alerted: Vec<String> = match tx.get(key) {
            Some(s) => trimmed_pieces(s, ','),
            None => {
                let v: Vec<String> = Vec::new();
                assert(views(v@) =~= Seq::<Seq<char>>::empty());
                v
            },
        };
        assert(views(alerted@) == alerted_dates(old(tx)@));
        let mut alerts: Vec<String> = Vec::new();
        let mut newly: Vec<String> = Vec::new();
        let mut i: usize = 0;
        while i < days.len()
            invariant
                i <= days@.len(),
                (views(alerts@), views(newly@)) == alert_state(
                    extreme_weather,
                    days@.take(i as int),
                    views(alerted@),
                ),
            decreases days@.len() - i,
        {
            let d = &days[i];
            assert(days@.take(i + 1).drop_last() =~= days@.take(i as int));
            assert(days@.take(i + 1).last() == days@[i as int]);
            if !contains_string(&alerted, &d.date) && !contains_string(&newly, &d.date) {
                let reasons = day_reasons_exec(extreme_weather, d);
                if reasons.len() > 0 {
                    let mut a = d.date.clone();
                    a.append(":\n  ");
                    a.append(join_strings(&reasons, "\n  ").as_str());
                    let ghost ba = alerts@;
                    let ghost bn = newly@;
                    alerts.push(a);
                    newly.push(d.date.clone());
                    assert(views(alerts@) =~= views(ba).push(a@));
                    assert(views(newly@) =~= views(bn).push(d.date@));
                }
            }
            i = i + 1;
        }
        assert(days@.take(i as int) =~= days@);
        if alerts.len() == 0 {
            return None;
        }
        let mut merged = alerted;
        let mut j: usize = 0;
        let ghost start = views(merged@);
        while j < newly.len()
            invariant
                j <= newly@.len(),
                views(merged@) == start + views(newly@).take(j as int),
            decreases newly@.len() - j,
        {
            let ghost before = merged@;
            merged.push(newly[j].clone());
            assert(views(merged@) =~= views(before).push(newly@[j as int]@));
            assert(views(newly@).take(j + 1) =~= views(newly@).take(j as int).push(newly@[j as int]@));
            j = j + 1;
        }
        assert(views(newly@).take(j as int) =~= views(newly@));
        tx.set(key, join_strings(&merged, ",").as_str());
        let n = alerts.len();
        let mut title = to_owned_string("Weather alert (");
        push_decimal(&mut title, n as u64);
        title.append(" day");
        if n == 1 {
            title.append("");
        } else {
            title.append("s");
        }
        title.append(")");
        let body = join_strings(&alerts, "\n\n");
        Some(Notification { title, body })
    }
}

} // verus!
