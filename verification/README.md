# traffic_analyzer

Bot detection and behaviour analysis on web traffic logs: the access log of an ingress controller, a
dump of an analytics database, and a directory of known addresses.

The library under `src/` holds the analyses. Every function in it states what it returns, and Verus
proves that it does. What the library takes from outside crates (`regex`, `chrono`, `hex` and
`flate2`) stands behind a few declarations in `pattern`, `stamp` and `replay`; each says what is
taken on trust. So does `text`, for two functions of the standard library.

The programs under `app/` read and write files and databases, draw pictures, and compute what is
floating point: deviations, entropies and distances.

| command      | reads                                 | writes                  |
|--------------|---------------------------------------|-------------------------|
| `enrich`     | `../ingress_nginx_1month_total.log`   | `../ingress_nginx.log`  |
| `nginx`      | `../ingress_nginx.log`                | `../ingress_analytics.db` |
| `analyze_ip` | `../ingress_nginx.log`                | `output/ip`             |
| `ip_400`     | `../ingress_nginx.log`                | `output/ip`             |
| `ip_static`  | `../ingress_nginx.log`                | `output/ip`             |
| `ip_route`   | `../ingress_nginx.log`                | `output/route_nginx`    |
| `route`      | `umami_raw_backup.sql`                | `output/route`          |
| `bot_route`  | `umami_raw_backup.sql`                | the current directory   |
| `entropy`    | `umami_raw_backup.sql`                | `output/entropy`        |
| `udger`      | `../udgardb_v3.dat`, `../ingress_analytics.db` | `output/udger` |
| `dbscan`     | `output/route_nginx/session_features.csv` | `output/dbscan_route_nginx` |
