//! The bytes of a `date` header line and the calendar behind it.

use crate::bytes;
use crate::date;
use crate::date::CivilDate;
use vstd::prelude::*;
use vstd::string::*;

verus! {

/// Day 0 is 1970-01-01, and each day number has the date after that of the one before: months have
/// 31 or 30 days, February 28 or, in the years that 4 divides, 29, but not in those that 100 divides
/// and 400 does not.
pub proof fn law_calendar(days: int)
    ensures
        date::civil_date(0) == (CivilDate { year: 1970, month: 1, day: 1 }),
        ({
            let c = date::civil_date(days);
            let length: int = if c.month == 2 {
                if c.year % 400 == 0 || (c.year % 4 == 0 && c.year % 100 != 0) {
                    29
                } else {
                    28
                }
            } else if c.month == 4 || c.month == 6 || c.month == 9 || c.month == 11 {
                30
            } else {
                31
            };
            &&& 1 <= c.month <= 12
            &&& 1 <= c.day <= length
            &&& date::civil_date(days + 1) == if c.day < length {
                CivilDate { year: c.year, month: c.month, day: c.day + 1 }
            } else if c.month < 12 {
                CivilDate { year: c.year, month: c.month + 1, day: 1 }
            } else {
                CivilDate { year: c.year + 1, month: 1, day: 1 }
            }
        }),
{
    let first = CivilDate { year: 1970, month: 1, day: 1 };
    assert(date::days_before_month(1970, 1) == 0);
    assert(first.valid() && first.day_number() == 0);
    date::law_civil_date_inverse(first);
    let c = date::civil_date(days);
    date::law_date_exists(days);
    date::law_next_date(c);
    date::law_civil_date_inverse(c.next());
}

/// The date of a day number is the one whose days since 1970-01-01 it counts, and a valid date is the
/// date of its day number.
pub proof fn law_valid_dates(c: CivilDate)
    ensures
        c.valid() <==> 1 <= c.month <= 12 && 1 <= c.day && (c.month == 2 ==> c.day <= if c.year % 400 == 0 || (c.year % 4
            == 0 && c.year % 100 != 0) {
            29int
        } else {
            28int
        }) && (c.month == 4 || c.month == 6 || c.month == 9 || c.month == 11 ==> c.day <= 30) && c.day <= 31,
        c.valid() ==> date::civil_date(c.day_number()) == c,
{
    if c.valid() {
        date::law_civil_date_inverse(c);
    }
}

/// The names of the months, by their bytes.
pub proof fn law_month_names(month: int)
    requires
        1 <= month <= 12,
    ensures
        month == 1 ==> date::month_name(month) == seq![0x4Au8, 0x61, 0x6E],
        month == 2 ==> date::month_name(month) == seq![0x46u8, 0x65, 0x62],
        month == 3 ==> date::month_name(month) == seq![0x4Du8, 0x61, 0x72],
        month == 4 ==> date::month_name(month) == seq![0x41u8, 0x70, 0x72],
        month == 5 ==> date::month_name(month) == seq![0x4Du8, 0x61, 0x79],
        month == 6 ==> date::month_name(month) == seq![0x4Au8, 0x75, 0x6E],
        month == 7 ==> date::month_name(month) == seq![0x4Au8, 0x75, 0x6C],
        month == 8 ==> date::month_name(month) == seq![0x41u8, 0x75, 0x67],
        month == 9 ==> date::month_name(month) == seq![0x53u8, 0x65, 0x70],
        month == 10 ==> date::month_name(month) == seq![0x4Fu8, 0x63, 0x74],
        month == 11 ==> date::month_name(month) == seq![0x4Eu8, 0x6F, 0x76],
        month == 12 ==> date::month_name(month) == seq![0x44u8, 0x65, 0x63],
{
    reveal_strlit("JanFebMarAprMayJunJulAugSepOctNovDec");
}

/// The names of the days of the week, by their bytes, day 0 of the calendar being a Thursday.
pub proof fn law_weekday_names(days: int)
    ensures
        days % 7 == 0 ==> date::weekday_name(date::weekday(days)) == seq![0x54u8, 0x68, 0x75],
        days % 7 == 1 ==> date::weekday_name(date::weekday(days)) == seq![0x46u8, 0x72, 0x69],
        days % 7 == 2 ==> date::weekday_name(date::weekday(days)) == seq![0x53u8, 0x61, 0x74],
        days % 7 == 3 ==> date::weekday_name(date::weekday(days)) == seq![0x53u8, 0x75, 0x6E],
        days % 7 == 4 ==> date::weekday_name(date::weekday(days)) == seq![0x4Du8, 0x6F, 0x6E],
        days % 7 == 5 ==> date::weekday_name(date::weekday(days)) == seq![0x54u8, 0x75, 0x65],
        days % 7 == 6 ==> date::weekday_name(date::weekday(days)) == seq![0x57u8, 0x65, 0x64],
{
    reveal_strlit("MonTueWedThuFriSatSun");
}

/// Where the fields of a line stand, and the bytes between them.
proof fn lemma_line(secs: int)
    ensures
        ({
            let line = date::date_line(secs);
            let c = date::civil_date(secs / 86400);
            let time = secs % 86400;
            let year = c.year % 65536;
            &&& line.len() == 37
            &&& line.subrange(0, 6) == seq![0x64u8, 0x61, 0x74, 0x65, 0x3A, 0x20]
            &&& line.subrange(6, 9) == date::weekday_name(date::weekday(secs / 86400))
            &&& line[9] == 0x2C && line[10] == 0x20
            &&& line.subrange(11, 13) == date::two_digits(c.day)
            &&& line[13] == 0x20
            &&& line.subrange(14, 17) == date::month_name(c.month)
            &&& line[17] == 0x20
            &&& line.subrange(18, 22) == date::four_digits(year)
            &&& line[22] == 0x20
            &&& line.subrange(23, 25) == date::two_digits(time / 3600)
            &&& line[25] == 0x3A
            &&& line.subrange(26, 28) == date::two_digits(time / 60 % 60)
            &&& line[28] == 0x3A
            &&& line.subrange(29, 31) == date::two_digits(time % 60)
            &&& line.subrange(31, 37) == seq![0x20u8, 0x47, 0x4D, 0x54, 0x0D, 0x0A]
        }),
{
    reveal_strlit("MonTueWedThuFriSatSun");
    reveal_strlit("JanFebMarAprMayJunJulAugSepOctNovDec");
    reveal_strlit("date: ");
    reveal_strlit(", ");
    reveal_strlit(" ");
    reveal_strlit(":");
    reveal_strlit(" GMT\r\n");
    date::law_date_exists(secs / 86400);
    let line = date::date_line(secs);
    let c = date::civil_date(secs / 86400);
    let time = secs % 86400;
    let year = c.year % 65536;
    assert(date::weekday_name(date::weekday(secs / 86400)).len() == 3);
    assert(date::month_name(c.month).len() == 3);
    assert(line.subrange(0, 6) =~= seq![0x64u8, 0x61, 0x74, 0x65, 0x3A, 0x20]);
    assert(line.subrange(6, 9) =~= date::weekday_name(date::weekday(secs / 86400)));
    assert(line.subrange(11, 13) =~= date::two_digits(c.day));
    assert(line.subrange(14, 17) =~= date::month_name(c.month));
    assert(line.subrange(18, 22) =~= date::four_digits(year));
    assert(line.subrange(23, 25) =~= date::two_digits(time / 3600));
    assert(line.subrange(26, 28) =~= date::two_digits(time / 60 % 60));
    assert(line.subrange(29, 31) =~= date::two_digits(time % 60));
    assert(line.subrange(31, 37) =~= seq![0x20u8, 0x47, 0x4D, 0x54, 0x0D, 0x0A]);
}

/// The line of every second begins with `date: ` and ends with ` GMT` and CRLF, and has the same marks
/// between its fields.
pub proof fn law_line_marks(secs: int)
    ensures
        date::date_line(secs).len() == 37,
        date::date_line(secs)[0] == 0x64 && date::date_line(secs)[1] == 0x61 && date::date_line(secs)[2] == 0x74
            && date::date_line(secs)[3] == 0x65 && date::date_line(secs)[4] == 0x3A && date::date_line(secs)[5] == 0x20,
        date::date_line(secs)[9] == 0x2C && date::date_line(secs)[10] == 0x20,
        date::date_line(secs)[13] == 0x20 && date::date_line(secs)[17] == 0x20 && date::date_line(secs)[22] == 0x20,
        date::date_line(secs)[25] == 0x3A && date::date_line(secs)[28] == 0x3A,
        date::date_line(secs)[31] == 0x20 && date::date_line(secs)[32] == 0x47 && date::date_line(secs)[33] == 0x4D
            && date::date_line(secs)[34] == 0x54 && date::date_line(secs)[35] == 0x0D && date::date_line(secs)[36] == 0x0A,
{
    lemma_line(secs);
    lemma_marks(date::date_line(secs));
}

proof fn lemma_marks(line: Seq<u8>)
    requires
        line.len() == 37,
        line.subrange(0, 6) == seq![0x64u8, 0x61, 0x74, 0x65, 0x3A, 0x20],
        line.subrange(31, 37) == seq![0x20u8, 0x47, 0x4D, 0x54, 0x0D, 0x0A],
    ensures
        line[0] == 0x64 && line[1] == 0x61 && line[2] == 0x74 && line[3] == 0x65 && line[4] == 0x3A && line[5] == 0x20,
        line[31] == 0x20 && line[32] == 0x47 && line[33] == 0x4D && line[34] == 0x54 && line[35] == 0x0D && line[36]
            == 0x0A,
{
    let (a, b) = (line.subrange(0, 6), line.subrange(31, 37));
    assert(line[0] == a[0] && line[1] == a[1] && line[2] == a[2] && line[3] == a[3] && line[4] == a[4] && line[5] == a[5]);
    assert(line[31] == b[0] && line[32] == b[1] && line[33] == b[2] && line[34] == b[3] && line[35] == b[4] && line[36]
        == b[5]);
}

/// The line names the day of the week in three letters, day 0 being a Thursday.
pub proof fn law_line_weekday(secs: int, line: Seq<u8>, days: int)
    requires
        line == date::date_line(secs),
        days == secs / 86400,
    ensures
        days % 7 == 0 ==> line[6] == 0x54 && line[7] == 0x68 && line[8] == 0x75,
        days % 7 == 1 ==> line[6] == 0x46 && line[7] == 0x72 && line[8] == 0x69,
        days % 7 == 2 ==> line[6] == 0x53 && line[7] == 0x61 && line[8] == 0x74,
        days % 7 == 3 ==> line[6] == 0x53 && line[7] == 0x75 && line[8] == 0x6E,
        days % 7 == 4 ==> line[6] == 0x4D && line[7] == 0x6F && line[8] == 0x6E,
        days % 7 == 5 ==> line[6] == 0x54 && line[7] == 0x75 && line[8] == 0x65,
        days % 7 == 6 ==> line[6] == 0x57 && line[7] == 0x65 && line[8] == 0x64,
{
    lemma_line(secs);
    lemma_weekday(line, days);
}

proof fn lemma_weekday(line: Seq<u8>, days: int)
    requires
        line.len() == 37,
        line.subrange(6, 9) == date::weekday_name(date::weekday(days)),
    ensures
        days % 7 == 0 ==> line[6] == 0x54 && line[7] == 0x68 && line[8] == 0x75,
        days % 7 == 1 ==> line[6] == 0x46 && line[7] == 0x72 && line[8] == 0x69,
        days % 7 == 2 ==> line[6] == 0x53 && line[7] == 0x61 && line[8] == 0x74,
        days % 7 == 3 ==> line[6] == 0x53 && line[7] == 0x75 && line[8] == 0x6E,
        days % 7 == 4 ==> line[6] == 0x4D && line[7] == 0x6F && line[8] == 0x6E,
        days % 7 == 5 ==> line[6] == 0x54 && line[7] == 0x75 && line[8] == 0x65,
        days % 7 == 6 ==> line[6] == 0x57 && line[7] == 0x65 && line[8] == 0x64,
{
    law_weekday_names(days);
    let name = line.subrange(6, 9);
    assert(line[6] == name[0] && line[7] == name[1] && line[8] == name[2]);
}

/// The line names the month of its date in three letters.
pub proof fn law_line_month(secs: int, line: Seq<u8>, month: int)
    requires
        line == date::date_line(secs),
        month == date::civil_date(secs / 86400).month,
    ensures
        1 <= month <= 12,
        month == 1 ==> line[14] == 0x4A && line[15] == 0x61 && line[16] == 0x6E,
        month == 2 ==> line[14] == 0x46 && line[15] == 0x65 && line[16] == 0x62,
        month == 3 ==> line[14] == 0x4D && line[15] == 0x61 && line[16] == 0x72,
        month == 4 ==> line[14] == 0x41 && line[15] == 0x70 && line[16] == 0x72,
        month == 5 ==> line[14] == 0x4D && line[15] == 0x61 && line[16] == 0x79,
        month == 6 ==> line[14] == 0x4A && line[15] == 0x75 && line[16] == 0x6E,
        month == 7 ==> line[14] == 0x4A && line[15] == 0x75 && line[16] == 0x6C,
        month == 8 ==> line[14] == 0x41 && line[15] == 0x75 && line[16] == 0x67,
        month == 9 ==> line[14] == 0x53 && line[15] == 0x65 && line[16] == 0x70,
        month == 10 ==> line[14] == 0x4F && line[15] == 0x63 && line[16] == 0x74,
        month == 11 ==> line[14] == 0x4E && line[15] == 0x6F && line[16] == 0x76,
        month == 12 ==> line[14] == 0x44 && line[15] == 0x65 && line[16] == 0x63,
{
    lemma_line(secs);
    date::law_date_exists(secs / 86400);
    lemma_month(line, month);
}

proof fn lemma_month(line: Seq<u8>, month: int)
    requires
        line.len() == 37,
        1 <= month <= 12,
        line.subrange(14, 17) == date::month_name(month),
    ensures
        month == 1 ==> line[14] == 0x4A && line[15] == 0x61 && line[16] == 0x6E,
        month == 2 ==> line[14] == 0x46 && line[15] == 0x65 && line[16] == 0x62,
        month == 3 ==> line[14] == 0x4D && line[15] == 0x61 && line[16] == 0x72,
        month == 4 ==> line[14] == 0x41 && line[15] == 0x70 && line[16] == 0x72,
        month == 5 ==> line[14] == 0x4D && line[15] == 0x61 && line[16] == 0x79,
        month == 6 ==> line[14] == 0x4A && line[15] == 0x75 && line[16] == 0x6E,
        month == 7 ==> line[14] == 0x4A && line[15] == 0x75 && line[16] == 0x6C,
        month == 8 ==> line[14] == 0x41 && line[15] == 0x75 && line[16] == 0x67,
        month == 9 ==> line[14] == 0x53 && line[15] == 0x65 && line[16] == 0x70,
        month == 10 ==> line[14] == 0x4F && line[15] == 0x63 && line[16] == 0x74,
        month == 11 ==> line[14] == 0x4E && line[15] == 0x6F && line[16] == 0x76,
        month == 12 ==> line[14] == 0x44 && line[15] == 0x65 && line[16] == 0x63,
{
    law_month_names(month);
    let name = line.subrange(14, 17);
    assert(line[14] == name[0] && line[15] == name[1] && line[16] == name[2]);
}

proof fn lemma_two_digits(v: int)
    requires
        0 <= v < 100,
    ensures
        date::two_digits(v).len() == 2,
        0x30 <= date::two_digits(v)[0] <= 0x39,
        0x30 <= date::two_digits(v)[1] <= 0x39,
        10 * (date::two_digits(v)[0] - 0x30) + (date::two_digits(v)[1] - 0x30) == v,
{
}

/// Read back, the numbers of a line are the day of its date, the year modulo 65536, and the hour, the
/// minute and the second that the time of the day is made of. All places but the first of the year
/// are digits.
pub proof fn law_line_reads_back(secs: int, line: Seq<u8>)
    requires
        line == date::date_line(secs),
    ensures
        10 * (line[11] - 0x30) + (line[12] - 0x30) == date::civil_date(secs / 86400).day,
        1000 * (line[18] - 0x30) + 100 * (line[19] - 0x30) + 10 * (line[20] - 0x30) + (line[21] - 0x30)
            == date::civil_date(secs / 86400).year % 65536,
        0x30 <= line[11] <= 0x39 && 0x30 <= line[12] <= 0x39,
        0x30 <= line[18] && 0x30 <= line[19] <= 0x39 && 0x30 <= line[20] <= 0x39 && 0x30 <= line[21] <= 0x39,
        0x30 <= line[23] <= 0x39 && 0x30 <= line[24] <= 0x39,
        0x30 <= line[26] <= 0x39 && 0x30 <= line[27] <= 0x39,
        0x30 <= line[29] <= 0x39 && 0x30 <= line[30] <= 0x39,
        ({
            let hour = 10 * (line[23] - 0x30) + (line[24] - 0x30);
            let minute = 10 * (line[26] - 0x30) + (line[27] - 0x30);
            let second = 10 * (line[29] - 0x30) + (line[30] - 0x30);
            &&& 0 <= hour < 24 && 0 <= minute < 60 && 0 <= second < 60
            &&& 3600 * hour + 60 * minute + second == secs % 86400
        }),
{
    lemma_line(secs);
    date::law_date_exists(secs / 86400);
    lemma_reads_back(line, date::civil_date(secs / 86400), secs % 86400);
}

proof fn lemma_reads_back(line: Seq<u8>, c: CivilDate, time: int)
    requires
        line.len() == 37,
        c.valid(),
        0 <= time < 86400,
        line.subrange(11, 13) == date::two_digits(c.day),
        line.subrange(18, 22) == date::four_digits(c.year % 65536),
        line.subrange(23, 25) == date::two_digits(time / 3600),
        line.subrange(26, 28) == date::two_digits(time / 60 % 60),
        line.subrange(29, 31) == date::two_digits(time % 60),
    ensures
        10 * (line[11] - 0x30) + (line[12] - 0x30) == c.day,
        1000 * (line[18] - 0x30) + 100 * (line[19] - 0x30) + 10 * (line[20] - 0x30) + (line[21] - 0x30) == c.year % 65536,
        0x30 <= line[11] <= 0x39 && 0x30 <= line[12] <= 0x39,
        0x30 <= line[18] && 0x30 <= line[19] <= 0x39 && 0x30 <= line[20] <= 0x39 && 0x30 <= line[21] <= 0x39,
        0x30 <= line[23] <= 0x39 && 0x30 <= line[24] <= 0x39,
        0x30 <= line[26] <= 0x39 && 0x30 <= line[27] <= 0x39,
        0x30 <= line[29] <= 0x39 && 0x30 <= line[30] <= 0x39,
        10 * (line[23] - 0x30) + (line[24] - 0x30) == time / 3600,
        10 * (line[26] - 0x30) + (line[27] - 0x30) == time / 60 % 60,
        10 * (line[29] - 0x30) + (line[30] - 0x30) == time % 60,
        3600 * (time / 3600) + 60 * (time / 60 % 60) + time % 60 == time,
{
    lemma_two_digits(c.day);
    lemma_two_digits(time / 3600);
    lemma_two_digits(time / 60 % 60);
    lemma_two_digits(time % 60);
    lemma_four_digits(c.year % 65536);
    assert(line.subrange(11, 13)[0] == line[11] && line.subrange(11, 13)[1] == line[12]);
    assert(line.subrange(23, 25)[0] == line[23] && line.subrange(23, 25)[1] == line[24]);
    assert(line.subrange(26, 28)[0] == line[26] && line.subrange(26, 28)[1] == line[27]);
    assert(line.subrange(29, 31)[0] == line[29] && line.subrange(29, 31)[1] == line[30]);
    let y = line.subrange(18, 22);
    assert(y[0] == line[18] && y[1] == line[19] && y[2] == line[20] && y[3] == line[21]);
}

proof fn lemma_four_digits(v: int)
    requires
        0 <= v < 65536,
    ensures
        ({
            let d = date::four_digits(v);
            &&& d.len() == 4
            &&& 0x30 <= d[0]
            &&& 0x30 <= d[1] <= 0x39 && 0x30 <= d[2] <= 0x39 && 0x30 <= d[3] <= 0x39
            &&& 1000 * (d[0] - 0x30) + 100 * (d[1] - 0x30) + 10 * (d[2] - 0x30) + (d[3] - 0x30) == v
        }),
{
    let d = date::four_digits(v);
    assert(d[0] == 0x30 + v / 1000);
    assert(d[1] == 0x30 + v / 100 % 10);
    assert(d[2] == 0x30 + v / 10 % 10);
    assert(d[3] == 0x30 + v % 10);
    assert(v / 100 / 10 == v / 1000);
    assert(v / 10 / 10 == v / 100);
    assert(v == 10 * (v / 10) + v % 10);
    assert(v / 10 == 10 * (v / 100) + v / 10 % 10);
    assert(v / 100 == 10 * (v / 1000) + v / 100 % 10);
}

/// Formatting into a buffer puts the line's own bytes into the places of the weekday, the day, the
/// month, the year, the hour, the minute and the second, and leaves all others as they were.
pub proof fn law_formatting(buf: Seq<u8>, secs: int, i: int)
    requires
        buf.len() == 37,
        0 <= i < 37,
    ensures
        date::with_date(buf, secs).len() == 37,
        date::with_date(buf, secs)[i] == if 6 <= i < 9 || 11 <= i < 13 || 14 <= i < 17 || 18 <= i < 22 || 23 <= i < 25
            || 26 <= i < 28 || 29 <= i < 31 {
            date::date_line(secs)[i]
        } else {
            buf[i]
        },
{
    lemma_line(secs);
    date::law_date_exists(secs / 86400);
    let line = date::date_line(secs);
    let c = date::civil_date(secs / 86400);
    law_weekday_names(secs / 86400);
    law_month_names(c.month);
    assert(6 <= i < 9 ==> line[i] == line.subrange(6, 9)[i - 6]);
    assert(11 <= i < 13 ==> line[i] == line.subrange(11, 13)[i - 11]);
    assert(14 <= i < 17 ==> line[i] == line.subrange(14, 17)[i - 14]);
    assert(18 <= i < 22 ==> line[i] == line.subrange(18, 22)[i - 18]);
    assert(23 <= i < 25 ==> line[i] == line.subrange(23, 25)[i - 23]);
    assert(26 <= i < 28 ==> line[i] == line.subrange(26, 28)[i - 26]);
    assert(29 <= i < 31 ==> line[i] == line.subrange(29, 31)[i - 29]);
}

/// The coarse clock counts where it could be read, else the plain one.
pub proof fn law_current_second(coarse: i64, plain: i64)
    ensures
        date::current_second(Some(coarse), plain) == coarse,
        date::current_second(None, plain) == plain,
{
}

} // verus!
